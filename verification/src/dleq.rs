//! A non-interactive proof that two pairs of group elements share one
//! discrete logarithm: that `X = k * B` and `Q = k * P` for the same `k`.

use crate::error::PPRFError;
use crate::group::{
    add_mod, group_order, is_element, is_multiple, is_sum, le_value, mul_mod, point_of,
    scalar_eq, scalar_mul, scalar_reduce_wide, scalar_sub, sub_mod, GroupElement, Scalar,
    SecretScalar,
};
use crate::strobe::{strobe_digest, strobe_prf};
use vstd::prelude::*;

verus! {

/// The label under which a challenge is derived.
pub open spec fn dleq_label() -> Seq<char> {
    "ppoprf_dleq_hash"@
}

/// The byte strings of `parts`, one after the other.
pub open spec fn joined(parts: Seq<Seq<u8>>) -> Seq<u8>
    decreases parts.len(),
{
    if parts.len() == 0 {
        Seq::empty()
    } else {
        joined(parts.drop_last()) + parts.last()
    }
}

/// The scalar to which a list of encodings is hashed: the digest of their
/// concatenation, read as a little-endian number and reduced modulo the
/// group order.
pub open spec fn hashed(parts: Seq<Seq<u8>>) -> nat {
    le_value(strobe_digest(dleq_label(), joined(parts))) % group_order()
}

/// The challenge of a proof about `(B, public_value)` and `(p, q)` with the
/// commitments `t1` and `t2`: the digest of the six encodings in this order,
/// read as a little-endian number and reduced modulo the group order.
pub open spec fn challenge(
    public_value: Seq<u8>,
    p: Seq<u8>,
    q: Seq<u8>,
    t1: Seq<u8>,
    t2: Seq<u8>,
) -> nat {
    le_value(strobe_digest(dleq_label(), point_of(1) + public_value + p + q + t1 + t2))
        % group_order()
}

/// Whether `out` encodes `s * G + c * H`, where `g` and `h` encode `G` and `H`.
pub open spec fn is_combination(out: Seq<u8>, s: nat, g: Seq<u8>, c: nat, h: Seq<u8>) -> bool {
    forall|x: nat, y: nat|
        g == #[trigger] point_of(x) && h == #[trigger] point_of(y) ==> out == point_of(
            add_mod(mul_mod(s, x), mul_mod(c, y)),
        )
}

/// A proof as two numbers: the challenge `c` and the response `s`.
pub struct ProofView {
    pub c: nat,
    pub s: nat,
}

/// The proof that a prover with the secret `key` and the nonce `nonce` gives
/// about `(B, public_value)` and `(p, q)`, where `nonce_p` encodes `nonce * P`.
pub open spec fn proof_for(
    nonce: nat,
    key: nat,
    public_value: Seq<u8>,
    p: Seq<u8>,
    q: Seq<u8>,
    nonce_p: Seq<u8>,
) -> ProofView {
    let c = challenge(public_value, p, q, point_of(nonce), nonce_p);
    ProofView { c, s: sub_mod(nonce, mul_mod(c, key)) }
}

/// Whether `proof` is the proof that the prover with the secret `key` gives
/// with the nonce `nonce`.
pub open spec fn made_with(
    proof: ProofView,
    nonce: nat,
    key: nat,
    public_value: Seq<u8>,
    p: Seq<u8>,
    q: Seq<u8>,
) -> bool {
    exists|nonce_p: Seq<u8>|
        is_multiple(nonce_p, nonce, p) && proof == #[trigger] proof_for(
            nonce,
            key,
            public_value,
            p,
            q,
            nonce_p,
        )
}

/// Whether a verifier that recomputes the commitments as `a` and `b` accepts
/// `proof` about `(B, public_value)` and `(p, q)`.
pub open spec fn accepts(
    proof: ProofView,
    public_value: Seq<u8>,
    p: Seq<u8>,
    q: Seq<u8>,
    a: Seq<u8>,
    b: Seq<u8>,
) -> bool {
    challenge(public_value, p, q, a, b) == proof.c
}

/// Whether `ok` is the verdict of the verifier on `proof` about
/// `(B, public_value)` and `(p, q)`: with the commitments recomputed as
/// `a = s * B + c * X` and `b = s * P + c * Q`, the proof is accepted exactly
/// if they hash to its challenge.
pub open spec fn is_verdict(
    ok: bool,
    proof: ProofView,
    public_value: Seq<u8>,
    p: Seq<u8>,
    q: Seq<u8>,
) -> bool {
    exists|a: Seq<u8>, b: Seq<u8>|
        {
            &&& is_combination(a, proof.s, point_of(1), proof.c, public_value)
            &&& is_combination(b, proof.s, p, proof.c, q)
            &&& ok == #[trigger] accepts(proof, public_value, p, q, a, b)
        }
}

/// Whether `bytes` are a proof on the wire: 64 bytes, each half of which is
/// the canonical encoding of a scalar.
pub open spec fn holds_proof(bytes: Seq<u8>) -> bool {
    &&& bytes.len() == 64
    &&& le_value(bytes.subrange(0, 32)) < group_order()
    &&& le_value(bytes.subrange(32, 64)) < group_order()
}

/// A proof of discrete-logarithm equality.
#[derive(Clone, Copy, Debug)]
pub struct ProofDLEQ {
    c: Scalar,
    s: Scalar,
}

impl View for ProofDLEQ {
    type V = ProofView;

    closed spec fn view(&self) -> ProofView {
        ProofView { c: self.c@, s: self.s@ }
    }
}

/// The views of a list of elements.
pub open spec fn encodings(elements: Seq<&GroupElement>) -> Seq<Seq<u8>> {
    Seq::new(elements.len(), |i: int| elements[i]@)
}

/// Six byte strings joined are their concatenation in order.
pub proof fn lemma_joined_six(
    a: Seq<u8>,
    b: Seq<u8>,
    c: Seq<u8>,
    d: Seq<u8>,
    e: Seq<u8>,
    f: Seq<u8>,
)
    ensures
        joined(seq![a, b, c, d, e, f]) == a + b + c + d + e + f,
{
    let six = seq![a, b, c, d, e, f];
    let five = seq![a, b, c, d, e];
    let four = seq![a, b, c, d];
    let three = seq![a, b, c];
    let two = seq![a, b];
    let one = seq![a];
    assert(six.drop_last() =~= five);
    assert(five.drop_last() =~= four);
    assert(four.drop_last() =~= three);
    assert(three.drop_last() =~= two);
    assert(two.drop_last() =~= one);
    assert(one.drop_last() =~= Seq::<Seq<u8>>::empty());
    reveal_with_fuel(joined, 8);
    assert(joined(one) =~= a);
}

/// The sum of two multiples is the combination of the two elements.
pub proof fn lemma_combination(
    out: Seq<u8>,
    s_g: Seq<u8>,
    c_h: Seq<u8>,
    s: nat,
    g: Seq<u8>,
    c: nat,
    h: Seq<u8>,
)
    requires
        is_multiple(s_g, s, g),
        is_multiple(c_h, c, h),
        is_sum(out, s_g, c_h),
    ensures
        is_combination(out, s, g, c, h),
{
}

/// Two elements have one combination only.
pub proof fn lemma_combination_unique(
    first: Seq<u8>,
    second: Seq<u8>,
    s: nat,
    g: Seq<u8>,
    c: nat,
    h: Seq<u8>,
)
    requires
        is_element(g),
        is_element(h),
        is_combination(first, s, g, c, h),
        is_combination(second, s, g, c, h),
    ensures
        first == second,
{
    let x = choose|x: nat| g == #[trigger] point_of(x);
    let y = choose|y: nat| h == #[trigger] point_of(y);
    assert(g == point_of(x) && h == point_of(y));
}

/// The verifier has one verdict only on a proof about group elements.
pub proof fn lemma_verdict_unique(
    first: bool,
    second: bool,
    proof: ProofView,
    public_value: Seq<u8>,
    p: Seq<u8>,
    q: Seq<u8>,
)
    requires
        is_element(public_value),
        is_element(p),
        is_element(q),
        is_verdict(first, proof, public_value, p, q),
        is_verdict(second, proof, public_value, p, q),
    ensures
        first == second,
{
    let (a1, b1) = choose|a: Seq<u8>, b: Seq<u8>|
        {
            &&& is_combination(a, proof.s, point_of(1), proof.c, public_value)
            &&& is_combination(b, proof.s, p, proof.c, q)
            &&& first == #[trigger] accepts(proof, public_value, p, q, a, b)
        };
    let (a2, b2) = choose|a: Seq<u8>, b: Seq<u8>|
        {
            &&& is_combination(a, proof.s, point_of(1), proof.c, public_value)
            &&& is_combination(b, proof.s, p, proof.c, q)
            &&& second == #[trigger] accepts(proof, public_value, p, q, a, b)
        };
    assert(is_element(point_of(1)));
    lemma_combination_unique(a1, a2, proof.s, point_of(1), proof.c, public_value);
    lemma_combination_unique(b1, b2, proof.s, p, proof.c, q);
}

impl ProofDLEQ {
    /// The 64 bytes of the proof on the wire: the canonical encoding of the
    /// challenge `c`, then that of the response `s`.
    pub closed spec fn encoding(&self) -> Seq<u8> {
        self.c.encoding() + self.s.encoding()
    }

    /// The proof on the wire.
    pub fn to_bytes(&self) -> (out: [u8; 64])
        ensures
            out@ == self.encoding(),
    {
        let c = self.c.to_bytes();
        let s = self.s.to_bytes();
        let mut out = [0u8; 64];
        let mut i: usize = 0;
        while i < 32
            invariant
                i <= 32,
                forall|k: int| 0 <= k < i ==> out@[k] == c@[k] && out@[32 + k] == s@[k],
            decreases 32 - i,
        {
            out[i] = c[i];
            out[i + 32] = s[i];
            i += 1;
        }
        assert(out@ =~= c@ + s@);
        out
    }

    /// The proof that 64 bytes on the wire hold. They have to be the
    /// canonical encodings of two scalars, or `SerializationError` comes back.
    pub fn from_bytes(bytes: &[u8]) -> (out: Result<ProofDLEQ, PPRFError>)
        ensures
            match out {
                Ok(made) => holds_proof(bytes@) && made.encoding() == bytes@ && made.valid(),
                Err(e) => !holds_proof(bytes@) && e == PPRFError::SerializationError,
            },
    {
        if bytes.len() != 64 {
            return Err(PPRFError::SerializationError);
        }
        let mut c = [0u8; 32];
        let mut s = [0u8; 32];
        let mut i: usize = 0;
        while i < 32
            invariant
                i <= 32,
                bytes@.len() == 64,
                forall|k: int| 0 <= k < i ==> c@[k] == bytes@[k] && s@[k] == bytes@[32 + k],
            decreases 32 - i,
        {
            c[i] = bytes[i];
            s[i] = bytes[i + 32];
            i += 1;
        }
        assert(c@ =~= bytes@.subrange(0, 32));
        assert(s@ =~= bytes@.subrange(32, 64));
        match (Scalar::from_canonical_bytes(c), Scalar::from_canonical_bytes(s)) {
            (Some(c), Some(s)) => {
                let made = ProofDLEQ { c, s };
                assert(made.encoding() =~= bytes@);
                Ok(made)
            },
            _ => Err(PPRFError::SerializationError),
        }
    }

    /// What holds of every proof: its two scalars lie below the group order.
    pub open spec fn valid(self) -> bool {
        self@.c < group_order() && self@.s < group_order()
    }

    /// A proof is what its wire form holds: two proofs with one encoding
    /// are the same proof.
    pub proof fn lemma_encoding_decides(&self, other: &ProofDLEQ)
        requires
            self.encoding() == other.encoding(),
        ensures
            *self == *other,
    {
        self.c.lemma_encoding();
        self.s.lemma_encoding();
        other.c.lemma_encoding();
        other.s.lemma_encoding();
        assert(self.c.encoding() =~= self.encoding().subrange(0, 32));
        assert(other.c.encoding() =~= other.encoding().subrange(0, 32));
        assert(self.s.encoding() =~= self.encoding().subrange(32, 64));
        assert(other.s.encoding() =~= other.encoding().subrange(32, 64));
        self.c.lemma_encoding_decides(&other.c);
        self.s.lemma_encoding_decides(&other.s);
    }

    /// The encoding of a valid proof has 64 bytes, each half of which is the
    /// canonical encoding of a scalar.
    pub proof fn lemma_encoding_canonical(&self)
        requires
            self.valid(),
        ensures
            holds_proof(self.encoding()),
            le_value(self.encoding().subrange(0, 32)) == self@.c,
            le_value(self.encoding().subrange(32, 64)) == self@.s,
    {
        self.c.lemma_encoding();
        self.s.lemma_encoding();
        assert(self.c.encoding() =~= self.encoding().subrange(0, 32));
        assert(self.s.encoding() =~= self.encoding().subrange(32, 64));
    }

    /// Hashes six elements to a scalar.
    pub fn hash(elements: &[&GroupElement]) -> (r: Scalar)
        requires
            elements@.len() == 6,
        ensures
            r@ == hashed(encodings(elements@)),
    {
        let mut input: Vec<u8> = Vec::new();
        let mut i: usize = 0;
        while i < elements.len()
            invariant
                i <= elements@.len(),
                input@ == joined(encodings(elements@).subrange(0, i as int)),
            decreases elements@.len() - i,
        {
            let bytes = elements[i].compress().to_bytes();
            let ghost before = input@;
            let mut j: usize = 0;
            while j < 32
                invariant
                    j <= 32,
                    input@ == before + bytes@.subrange(0, j as int),
                decreases 32 - j,
            {
                input.push(bytes[j]);
                assert(input@ =~= before + bytes@.subrange(0, j + 1));
                j += 1;
            }
            proof {
                let parts = encodings(elements@);
                let grown = parts.subrange(0, i + 1);
                assert(bytes@.subrange(0, 32) =~= bytes@);
                assert(grown.drop_last() =~= parts.subrange(0, i as int));
                assert(grown.last() == bytes@);
            }
            i += 1;
        }
        proof {
            let parts = encodings(elements@);
            assert(parts.subrange(0, parts.len() as int) =~= parts);
        }
        let out = strobe_prf(input.as_slice(), "ppoprf_dleq_hash");
        scalar_reduce_wide(&out)
    }

    /// The challenge for the six elements of a proof, in their fixed order.
    fn challenge_of(
        public_value: &GroupElement,
        p: &GroupElement,
        q: &GroupElement,
        t1: &GroupElement,
        t2: &GroupElement,
    ) -> (c: Scalar)
        ensures
            c@ == challenge(public_value@, p@, q@, t1@, t2@),
    {
        let base = GroupElement::generator();
        let elements: [&GroupElement; 6] = [&base, public_value, p, q, t1, t2];
        proof {
            assert(encodings(elements@) =~= seq![
                point_of(1),
                public_value@,
                p@,
                q@,
                t1@,
                t2@,
            ]);
            lemma_joined_six(point_of(1), public_value@, p@, q@, t1@, t2@);
        }
        ProofDLEQ::hash(elements.as_slice())
    }

    /// The proof that the prover with the secret `key` gives when its nonce
    /// is `nonce`: the challenge is hashed from `B`, `public_value`, `p`, `q`,
    /// `nonce * B` and `nonce * P`, and the response is `nonce - c * key`.
    pub fn with_nonce(
        nonce: &Scalar,
        key: &Scalar,
        public_value: &GroupElement,
        p: &GroupElement,
        q: &GroupElement,
    ) -> (proof: ProofDLEQ)
        ensures
            made_with(proof@, nonce@, key@, public_value@, p@, q@),
    {
        let tg = GroupElement::base_multiple(nonce);
        let tp = p.multiple(nonce);
        let chl = ProofDLEQ::challenge_of(public_value, p, q, &tg, &tp);
        let product = SecretScalar::new(scalar_mul(&chl, key));
        let s = scalar_sub(nonce, product.scalar());
        let made = ProofDLEQ { c: chl, s };
        assert(made@ == proof_for(nonce@, key@, public_value@, p@, q@, tp@));
        made
    }

    /// A proof that `public_value = key * B` and `q = key * P`, made with a
    /// fresh random nonce.
    pub fn new(
        key: &Scalar,
        public_value: &GroupElement,
        p: &GroupElement,
        q: &GroupElement,
    ) -> (made: ProofDLEQ)
        ensures
            exists|nonce: nat|
                nonce < group_order() && #[trigger] made_with(
                    made@,
                    nonce,
                    key@,
                    public_value@,
                    p@,
                    q@,
                ),
    {
        let t = SecretScalar::random();
        let fresh = ProofDLEQ::with_nonce(t.scalar(), key, public_value, p, q);
        assert(made_with(fresh@, t@, key@, public_value@, p@, q@));
        fresh
    }

    /// Whether the proof shows that `public_value` is to `B` as `q` is to `p`:
    /// the verifier recomputes the two commitments as `s * B + c * X` and
    /// `s * P + c * Q` and accepts exactly if they hash to the challenge.
    pub fn verify(&self, public_value: &GroupElement, p: &GroupElement, q: &GroupElement) -> (ok:
        bool)
        ensures
            is_verdict(ok, self@, public_value@, p@, q@),
    {
        let base = GroupElement::generator();
        let s_base = base.multiple(&self.s);
        let c_public = public_value.multiple(&self.c);
        let a = s_base.plus(&c_public);
        let s_p = p.multiple(&self.s);
        let c_q = q.multiple(&self.c);
        let b = s_p.plus(&c_q);
        let c_prime = ProofDLEQ::challenge_of(public_value, p, q, &a, &b);
        let ok = scalar_eq(&c_prime, &self.c);
        proof {
            lemma_combination(a@, s_base@, c_public@, self@.s, base@, self@.c, public_value@);
            lemma_combination(b@, s_p@, c_q@, self@.s, p@, self@.c, q@);
            assert(ok == accepts(self@, public_value@, p@, q@, a@, b@));
        }
        ok
    }
}

} // verus!
