//! The server and the client of the puncturable partially-oblivious
//! pseudorandom function.
//!
//! The server holds a secret scalar `sk` and a puncturable function `f` on
//! tags. On a blinded input `P` and a tag `t` it returns `(sk + f(t))^-1 * P`,
//! with a proof on request that it used the key that it published. The client
//! blinds its input, checks the proof, takes the blinding off and hashes the
//! result, bound to input and tag, to the final output.

pub use crate::dleq::ProofDLEQ;
use crate::dleq::{is_verdict, made_with, ProofView};
pub use crate::error::PPRFError;
pub use crate::ggm::TAG_DOMAIN;
use crate::ggm::{leaf, GgmView, GGM};
pub use crate::group::COMPRESSED_POINT_LEN;
use crate::group::{
    add_mod, group_order, inverse, is_element, is_inverse, is_multiple, is_sum, le_value,
    point_of, scalar_add, scalar_reduce, uniform_point, CompressedPoint, GroupElement, Scalar,
    SecretScalar,
};
pub use crate::strobe::DIGEST_LEN;
use crate::strobe::{strobe_digest, strobe_prf};
use std::collections::HashMap;
use vstd::prelude::*;

verus! {

broadcast use vstd::std_specs::hash::group_hash_axioms;

/// The label under which a client input is hashed before it is mapped to the group.
pub open spec fn client_label() -> Seq<char> {
    "ppoprf_derive_client_input"@
}

/// The label under which the final output is hashed.
pub open spec fn finalize_label() -> Seq<char> {
    "ppoprf_finalize"@
}

/// The scalar that the puncturable function grown from `root` gives for
/// `tag`: its 32-byte value, reduced modulo the group order.
pub open spec fn tag_scalar(root: Seq<u8>, tag: u8) -> nat {
    le_value(leaf(root, tag)) % group_order()
}

/// The group element to which a client input is hashed.
pub open spec fn input_point(input: Seq<u8>) -> Seq<u8> {
    uniform_point(strobe_digest(client_label(), input))
}

/// What is hashed to the final output: the input, then the tag, then the
/// encoding of the unblinded element.
pub open spec fn finalize_message(input: Seq<u8>, md: u8, unblinded: Seq<u8>) -> Seq<u8> {
    input + seq![md] + unblinded
}

/// The final output: the first 32 bytes of the digest of the message.
pub open spec fn finalize_output(input: Seq<u8>, md: u8, unblinded: Seq<u8>) -> Seq<u8> {
    strobe_digest(finalize_label(), finalize_message(input, md, unblinded)).subrange(0, 32)
}

/// Whether `ok` is the verdict of the client on an evaluation with the
/// output `output` and the proof `proof` of the blinded element `input` at
/// the tag `md`: no, where the key has no entry for `md`, where there is no
/// proof, and where the output is no group element; else the verdict of the
/// verifier on the proof about `(B, base_pk + md_pks[md])` and
/// `(output, input)`.
pub open spec fn is_client_verdict(
    ok: bool,
    public_key: PublicKeyView,
    input: Seq<u8>,
    output: Seq<u8>,
    proof: Option<ProofView>,
    md: u8,
) -> bool {
    if !public_key.md_pks.contains_key(md) || proof is None || !is_element(output) {
        !ok
    } else {
        exists|public_value: Seq<u8>| #[trigger]
            is_sum(public_value, public_key.base_pk, public_key.md_pks[md]) && is_verdict(
                ok,
                proof->0,
                public_value,
                output,
                input,
            )
    }
}

/// A public key as encodings: that of `sk * B`, and for each tag that the
/// server was set up with that of `f(tag) * B`.
pub struct PublicKeyView {
    pub base_pk: Seq<u8>,
    pub md_pks: Map<u8, Seq<u8>>,
}

/// The public key of a server.
#[derive(Debug)]
pub struct ServerPublicKey {
    base_pk: GroupElement,
    md_pks: HashMap<u8, GroupElement>,
}

impl View for ServerPublicKey {
    type V = PublicKeyView;

    closed spec fn view(&self) -> PublicKeyView {
        PublicKeyView {
            base_pk: self.base_pk@,
            md_pks: self.md_pks@.map_values(|e: GroupElement| e@),
        }
    }
}

impl ServerPublicKey {
    /// The public key element of the tag `md`, where the key has one.
    fn get(&self, md: u8) -> (r: Option<&GroupElement>)
        ensures
            match r {
                Some(e) => self@.md_pks.contains_key(md) && self@.md_pks[md] == e@,
                None => !self@.md_pks.contains_key(md),
            },
    {
        self.md_pks.get(&md)
    }

    /// The element `base_pk + md_pks[md]` against which evaluations at `md`
    /// are verified, or `BadTag` where the key has no entry for `md`.
    fn get_combined_pk_value(&self, md: u8) -> (r: Result<GroupElement, PPRFError>)
        ensures
            match r {
                Ok(x) => {
                    &&& self@.md_pks.contains_key(md)
                    &&& is_sum(x@, self@.base_pk, self@.md_pks[md])
                    &&& is_element(self@.base_pk)
                    &&& is_element(self@.md_pks[md])
                },
                Err(e) => !self@.md_pks.contains_key(md) && e == (PPRFError::BadTag { md }),
            },
    {
        match self.get(md) {
            Some(md_pk) => {
                proof {
                    use_type_invariant(&self.base_pk);
                    use_type_invariant(md_pk);
                }
                Ok(self.base_pk.plus(md_pk))
            },
            None => Err(PPRFError::BadTag { md }),
        }
    }
}

impl Clone for ServerPublicKey {
    /// A copy of the key.
    fn clone(&self) -> (copy: ServerPublicKey)
        ensures
            copy@ == self@,
    {
        ServerPublicKey { base_pk: self.base_pk, md_pks: self.md_pks.clone() }
    }
}

/// What the server returns: the evaluated element, and a proof if one was asked for.
#[derive(Clone, Copy, Debug)]
pub struct Evaluation {
    pub output: CompressedPoint,
    pub proof: Option<ProofDLEQ>,
}

/// A compressed group element as it crosses the wire.
#[derive(Clone, Copy, Debug, PartialEq, Eq)]
pub struct Point(pub CompressedPoint);

impl View for Point {
    type V = Seq<u8>;

    open spec fn view(&self) -> Seq<u8> {
        self.0@
    }
}

/// A server as numbers and encodings: its secret key, its puncturable
/// function, and its public key.
pub struct ServerView {
    pub key: nat,
    pub pprf: GgmView,
    pub public_key: PublicKeyView,
}

impl ServerView {
    /// Whether the public key is the one of the secrets: `base_pk` encodes
    /// `key * B`, and the entry of each tag encodes `f(tag) * B`.
    pub open spec fn consistent(self) -> bool {
        &&& self.key < group_order()
        &&& self.public_key.base_pk == point_of(self.key)
        &&& forall|md: u8| #[trigger]
            self.public_key.md_pks.contains_key(md) ==> self.public_key.md_pks[md] == point_of(
                tag_scalar(self.pprf.root, md),
            )
    }

    /// The key under which the tag `md` is evaluated: `key + f(md)`.
    pub open spec fn tagged_key(self, md: u8) -> nat {
        add_mod(self.key, tag_scalar(self.pprf.root, md))
    }

    /// Why an evaluation at `md` is refused, if it is: `BadTag` for a tag
    /// that the server was not set up with, `NoPrefixFound` for one that was
    /// punctured since.
    pub open spec fn refusal(self, md: u8) -> Option<PPRFError> {
        if !self.public_key.md_pks.contains_key(md) {
            Some(PPRFError::BadTag { md })
        } else if !self.pprf.active.contains(md) {
            Some(PPRFError::NoPrefixFound)
        } else {
            None
        }
    }

    /// Whether `out` is what the server answers when it is asked to evaluate
    /// the element `point` at the tag `md`: the error for which it refuses,
    /// or the element `(key + f(md))^-1 * point` as output, with a proof
    /// exactly if `verifiable`. The proof is one that the prover with the
    /// tagged key gives, with some nonce, that the public value
    /// `(key + f(md)) * B` is to `B` as `point` is to the output.
    pub open spec fn answers(
        self,
        point: Seq<u8>,
        md: u8,
        verifiable: bool,
        out: Result<Evaluation, PPRFError>,
    ) -> bool {
        match out {
            Err(e) => self.refusal(md) == Some(e),
            Ok(ev) => {
                &&& self.refusal(md) is None
                &&& is_multiple(ev.output@, inverse(self.tagged_key(md)), point)
                &&& self.tagged_key(md) != 0 ==> is_inverse(
                    inverse(self.tagged_key(md)),
                    self.tagged_key(md),
                )
                &&& is_element(ev.output@)
                &&& ev.proof is Some <==> verifiable
                &&& ev.proof matches Some(given) ==> exists|nonce: nat|
                    nonce < group_order() && #[trigger] made_with(
                        given@,
                        nonce,
                        self.tagged_key(md),
                        point_of(self.tagged_key(md)),
                        ev.output@,
                        point,
                    )
            },
        }
    }

    /// The server after `md` was punctured: the public key stays as it is.
    pub open spec fn punctured(self, md: u8) -> ServerView {
        ServerView { key: self.key, pprf: self.pprf.punctured(md), public_key: self.public_key }
    }
}

/// The server side of the protocol. Its secret key and the seeds of its
/// puncturable function are erased from memory when the server is dropped.
pub struct Server {
    oprf_key: SecretScalar,
    public_key: ServerPublicKey,
    pprf: GGM,
}

impl View for Server {
    type V = ServerView;

    closed spec fn view(&self) -> ServerView {
        ServerView { key: self.oprf_key@, pprf: self.pprf@, public_key: self.public_key@ }
    }
}

impl Clone for Server {
    /// A copy with the same keys and the same active tags.
    fn clone(&self) -> (copy: Server)
        ensures
            copy@ == self@,
    {
        proof {
            use_type_invariant(self);
        }
        Server {
            oprf_key: self.oprf_key.clone(),
            public_key: self.public_key.clone(),
            pprf: self.pprf.clone(),
        }
    }
}

impl Server {
    #[verifier::type_invariant]
    spec fn well_formed(self) -> bool {
        self@.consistent()
    }

    /// A server with a fresh random key and a fresh puncturable function,
    /// with a public key entry for each tag of `mds`.
    pub fn new(mds: Vec<u8>) -> (r: Result<Server, PPRFError>)
        ensures
            r matches Ok(server) && server@.consistent() && server@.public_key.md_pks.dom()
                == mds@.to_set() && server@.pprf.active == Set::<u8>::full(),
    {
        let oprf_key = SecretScalar::random();
        let pprf = GGM::setup();
        Server::with_secrets(oprf_key, pprf, mds)
    }

    /// The server with the secret key `oprf_key` and the puncturable function
    /// `pprf`, with a public key entry for each tag of `mds`. Both secrets
    /// have to come from a cryptographic random generator. Fails with
    /// `NoPrefixFound` where a tag of `mds` is punctured in `pprf`.
    pub fn with_secrets(oprf_key: SecretScalar, pprf: GGM, mds: Vec<u8>) -> (r: Result<
        Server,
        PPRFError,
    >)
        ensures
            match r {
                Ok(server) => {
                    &&& forall|i: int|
                        0 <= i < mds@.len() ==> pprf@.active.contains(#[trigger] mds@[i])
                    &&& server@.key == oprf_key@
                    &&& server@.pprf == pprf@
                    &&& server@.public_key.md_pks.dom() == mds@.to_set()
                    &&& server@.consistent()
                },
                Err(e) => e == PPRFError::NoPrefixFound && exists|i: int|
                    0 <= i < mds@.len() && !pprf@.active.contains(#[trigger] mds@[i]),
            },
    {
        let mut md_pks: HashMap<u8, GroupElement> = HashMap::new();
        let mut i: usize = 0;
        while i < mds.len()
            invariant
                i <= mds@.len(),
                forall|k: int| 0 <= k < i ==> pprf@.active.contains(#[trigger] mds@[k]),
                md_pks@.dom() == mds@.subrange(0, i as int).to_set(),
                forall|md: u8| #[trigger]
                    md_pks@.contains_key(md) ==> md_pks@[md]@ == point_of(
                        tag_scalar(pprf@.root, md),
                    ),
            decreases mds@.len() - i,
        {
            let md = mds[i];
            let tag = match pprf.eval(md) {
                Ok(tag) => tag,
                Err(e) => {
                    return Err(e);
                },
            };
            let ts = SecretScalar::new(scalar_reduce(tag.expose()));
            let ghost before = md_pks@;
            md_pks.insert(md, GroupElement::base_multiple(ts.scalar()));
            proof {
                let grown = mds@.subrange(0, i + 1);
                assert(grown.drop_last() =~= mds@.subrange(0, i as int));
                assert(grown =~= mds@.subrange(0, i as int).push(md));
                mds@.subrange(0, i as int).lemma_push_to_set_commute(md);
                assert(md_pks@.dom() =~= before.dom().insert(md));
            }
            i += 1;
        }
        assert(mds@.subrange(0, mds@.len() as int) =~= mds@);
        let base_pk = GroupElement::base_multiple(oprf_key.scalar());
        let public_key = ServerPublicKey { base_pk, md_pks };
        assert(public_key@.md_pks.dom() =~= md_pks@.dom());
        Ok(Server { oprf_key, public_key, pprf })
    }

    /// Evaluates the function on the element `point` under the tag `md`:
    /// the output is `(sk + f(md))^-1 * point`. With `verifiable`, a proof is
    /// added that the key is the one behind the public key.
    pub fn eval_element(&self, point: &GroupElement, md: u8, verifiable: bool) -> (out: Result<
        Evaluation,
        PPRFError,
    >)
        ensures
            self@.consistent(),
            self@.answers(point@, md, verifiable, out),
    {
        proof {
            use_type_invariant(self);
        }
        if self.public_key.get(md).is_none() {
            return Err(PPRFError::BadTag { md });
        }
        let tag = match self.pprf.eval(md) {
            Ok(tag) => tag,
            Err(e) => {
                return Err(e);
            },
        };
        let ts = SecretScalar::new(scalar_reduce(tag.expose()));
        let tagged_key = SecretScalar::new(scalar_add(self.oprf_key.scalar(), ts.scalar()));
        let exponent = SecretScalar::new(tagged_key.scalar().invert());
        let eval_point = point.multiple(exponent.scalar());
        let mut attached: Option<ProofDLEQ> = None;
        let ghost mut used: nat = 0;
        if verifiable {
            let public_value = match self.public_key.get_combined_pk_value(md) {
                Ok(x) => x,
                Err(e) => {
                    return Err(e);
                },
            };
            assert(public_value@ == point_of(self@.tagged_key(md)));
            let made = ProofDLEQ::new(tagged_key.scalar(), &public_value, &eval_point, point);
            proof {
                let nonce = choose|nonce: nat|
                    nonce < group_order() && #[trigger] made_with(
                        made@,
                        nonce,
                        tagged_key@,
                        public_value@,
                        eval_point@,
                        point@,
                    );
                used = nonce;
            }
            attached = Some(made);
        }
        let output = eval_point.compress();
        assert(attached matches Some(given) ==> used < group_order() && made_with(
            given@,
            used,
            self@.tagged_key(md),
            point_of(self@.tagged_key(md)),
            output@,
            point@,
        ));
        Ok(Evaluation { output, proof: attached })
    }

    /// Evaluates the function on the compressed element `p` under the tag
    /// `md`; `p` has to be the encoding of a group element.
    pub fn eval(&self, p: &Point, md: u8, verifiable: bool) -> (out: Result<Evaluation, PPRFError>)
        requires
            is_element(p@),
        ensures
            self@.consistent(),
            self@.answers(p@, md, verifiable, out),
    {
        let point = p.0.decompress().unwrap();
        self.eval_element(&point, md, verifiable)
    }

    /// Evaluates as `eval` does where `p` encodes a group element, and
    /// returns `None` where it does not.
    pub fn try_eval(&self, p: &Point, md: u8, verifiable: bool) -> (out: Option<
        Result<Evaluation, PPRFError>,
    >)
        ensures
            self@.consistent(),
            out is Some <==> is_element(p@),
            out matches Some(answer) ==> self@.answers(p@, md, verifiable, answer),
    {
        match p.0.decompress() {
            Some(_) => Some(self.eval(p, md, verifiable)),
            None => {
                proof {
                    use_type_invariant(self);
                }
                None
            },
        }
    }

    /// Punctures the tag `md`: from now on evaluations at `md` fail with
    /// `NoPrefixFound`. The public key is left as it is.
    pub fn puncture(&mut self, md: u8) -> (out: Result<(), PPRFError>)
        ensures
            match out {
                Ok(_) => old(self)@.pprf.active.contains(md) && final(self)@ == old(
                    self,
                )@.punctured(md),
                Err(e) => !old(self)@.pprf.active.contains(md) && e == PPRFError::NoPrefixFound
                    && final(self)@ == old(self)@,
            },
    {
        proof {
            use_type_invariant(&*self);
        }
        match self.pprf.punctured(md) {
            Ok(next) => {
                self.pprf = next;
                Ok(())
            },
            Err(e) => Err(e),
        }
    }

    /// A copy of the public key.
    pub fn get_public_key(&self) -> (pk: ServerPublicKey)
        ensures
            pk@ == self@.public_key,
            self@.consistent(),
    {
        proof {
            use_type_invariant(self);
        }
        self.public_key.clone()
    }
}

/// The client side of the protocol: functions without state.
pub struct Client {}

impl Client {
    /// The group element to which `input` is hashed.
    pub fn hash_to_group(input: &[u8]) -> (h: GroupElement)
        ensures
            h@ == input_point(input@),
            is_element(h@),
    {
        let hashed_input = strobe_prf(input, "ppoprf_derive_client_input");
        GroupElement::from_uniform_bytes(&hashed_input)
    }

    /// Blinds `input` with the factor `r`: the element `r * H(input)`.
    pub fn blind_with(input: &[u8], r: &Scalar) -> (p: Point)
        ensures
            is_multiple(p@, r@, input_point(input@)),
            is_element(p@),
    {
        let point = Client::hash_to_group(input);
        Point(point.multiple(r).compress())
    }

    /// Blinds `input` with a fresh random factor, which is returned with the
    /// blinded element and has to be kept for `unblind`.
    pub fn blind(input: &[u8]) -> (out: (Point, Scalar))
        ensures
            is_multiple(out.0@, out.1@, input_point(input@)),
            is_element(out.0@),
            out.1@ < group_order(),
    {
        let r = Scalar::random();
        (Client::blind_with(input, &r), r)
    }

    /// Whether `eval` carries a proof that it is the evaluation of the
    /// blinded element `input` at the tag `md` under `public_key`. An
    /// evaluation without proof, a tag without public key and an output that
    /// is no group element are all refused.
    pub fn verify(
        public_key: &ServerPublicKey,
        input: &GroupElement,
        eval: &Evaluation,
        md: u8,
    ) -> (ok: bool)
        ensures
            is_client_verdict(
                ok,
                public_key@,
                input@,
                eval.output@,
                match eval.proof {
                    Some(given) => Some(given@),
                    None => None,
                },
                md,
            ),
    {
        let public_value = match public_key.get_combined_pk_value(md) {
            Ok(x) => x,
            Err(_) => {
                return false;
            },
        };
        let attached = &eval.proof;
        let given = match attached {
            Some(given) => given,
            None => {
                return false;
            },
        };
        let output = match eval.output.decompress() {
            Some(output) => output,
            None => {
                return false;
            },
        };
        let ok = given.verify(&public_value, &output, input);
        assert(is_sum(public_value@, public_key@.base_pk, public_key@.md_pks[md]) && is_verdict(
            ok,
            given@,
            public_value@,
            eval.output@,
            input@,
        ));
        ok
    }

    /// Takes the blinding factor `r` off the element `p`: the element
    /// `r^-1 * p`; `p` has to be the encoding of a group element.
    pub fn unblind(p: &CompressedPoint, r: &Scalar) -> (out: CompressedPoint)
        requires
            is_element(p@),
        ensures
            is_multiple(out@, inverse(r@), p@),
            r@ != 0 ==> is_inverse(inverse(r@), r@),
            is_element(out@),
    {
        let point = p.decompress().unwrap();
        let r_inv = SecretScalar::new(r.invert());
        point.multiple(r_inv.scalar()).compress()
    }

    /// Unblinds as `unblind` does where `p` encodes a group element, and
    /// returns `None` where it does not.
    pub fn try_unblind(p: &CompressedPoint, r: &Scalar) -> (out: Option<CompressedPoint>)
        ensures
            out is Some <==> is_element(p@),
            out matches Some(u) ==> {
                &&& is_multiple(u@, inverse(r@), p@)
                &&& r@ != 0 ==> is_inverse(inverse(r@), r@)
                &&& is_element(u@)
            },
    {
        match p.decompress() {
            Some(_) => Some(Client::unblind(p, r)),
            None => None,
        }
    }

    /// Writes the final output for `input` at the tag `md` into `out`, which
    /// has to be 32 bytes long: the first half of the digest of the input,
    /// the tag and the unblinded element, in this order.
    pub fn finalize(input: &[u8], md: u8, unblinded: &CompressedPoint, out: &mut [u8])
        requires
            old(out)@.len() == 32,
        ensures
            final(out)@ == finalize_output(input@, md, unblinded@),
    {
        let point_bytes = unblinded.to_bytes();
        let mut hash_input: Vec<u8> = Vec::new();
        let mut i: usize = 0;
        while i < input.len()
            invariant
                i <= input@.len(),
                hash_input@ == input@.subrange(0, i as int),
            decreases input@.len() - i,
        {
            hash_input.push(input[i]);
            assert(hash_input@ =~= input@.subrange(0, i + 1));
            i += 1;
        }
        assert(input@.subrange(0, input@.len() as int) =~= input@);
        hash_input.push(md);
        let mut j: usize = 0;
        while j < 32
            invariant
                j <= 32,
                hash_input@ == input@ + seq![md] + point_bytes@.subrange(0, j as int),
            decreases 32 - j,
        {
            hash_input.push(point_bytes[j]);
            assert(hash_input@ =~= input@ + seq![md] + point_bytes@.subrange(0, j + 1));
            j += 1;
        }
        assert(point_bytes@.subrange(0, 32) =~= point_bytes@);
        let untruncated = strobe_prf(hash_input.as_slice(), "ppoprf_finalize");
        let mut k: usize = 0;
        while k < 32
            invariant
                k <= 32,
                out@.len() == 32,
                forall|n: int| 0 <= n < k ==> out@[n] == untruncated@[n],
            decreases 32 - k,
        {
            out[k] = untruncated[k];
            k += 1;
        }
        assert(out@ =~= untruncated@.subrange(0, 32));
    }
}

} // verus!
