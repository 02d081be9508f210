//! Scalars and elements of the ristretto255 group, held as their canonical
//! byte encodings, with the group arithmetic delegated to `curve25519-dalek`.
//!
//! The group is cyclic of prime order with generator `B`, so every element is
//! `x * B` for some number `x`. The contracts of this module speak of an
//! element through such an `x`: `point_of(x)` is the encoding of `x * B`.

use crate::error::PPRFError;
use crate::secret::{erase, zeros};
use curve25519_dalek::constants::RISTRETTO_BASEPOINT_POINT;
use curve25519_dalek::ristretto::{CompressedRistretto, RistrettoPoint};
use vstd::arithmetic::power2::pow2;
use vstd::prelude::*;

verus! {

/// Length in bytes of a compressed group element.
pub const COMPRESSED_POINT_LEN: usize = 32;

/// The prime order `2^252 + 27742317777372353535851937790883648493` of the group.
pub open spec fn group_order() -> nat {
    pow2(252) + 27742317777372353535851937790883648493
}

/// The number that a byte string denotes when read as a little-endian integer.
pub open spec fn le_value(bytes: Seq<u8>) -> nat
    decreases bytes.len(),
{
    if bytes.len() == 0 {
        0
    } else {
        bytes[0] as nat + 256 * le_value(bytes.drop_first())
    }
}

/// Sum modulo the group order.
pub open spec fn add_mod(a: nat, b: nat) -> nat {
    (a + b) % group_order()
}

/// Difference modulo the group order, for `b` below the order.
pub open spec fn sub_mod(a: nat, b: nat) -> nat {
    ((a + group_order() - b) % (group_order() as int)) as nat
}

/// Product modulo the group order.
pub open spec fn mul_mod(a: nat, b: nat) -> nat {
    (a * b) % group_order()
}

/// Whether `r` is the reduced multiplicative inverse of `a` modulo the group order.
pub open spec fn is_inverse(r: nat, a: nat) -> bool {
    r < group_order() && mul_mod(r, a) == 1
}

/// The multiplicative inverse of `a` modulo the group order; 0 for a
/// multiple of the order, which has none.
pub open spec fn inverse(a: nat) -> nat {
    if a % group_order() == 0 {
        0
    } else {
        choose|r: nat| is_inverse(r, a)
    }
}

/// The canonical 32-byte encoding of the group element `x * B`, where `B` is
/// the fixed generator of the group.
pub uninterp spec fn point_of(x: nat) -> Seq<u8>;

/// The canonical encoding of the element to which the 64 bytes `bytes` are
/// mapped by the group's map from uniform strings.
pub uninterp spec fn uniform_point(bytes: Seq<u8>) -> Seq<u8>;

/// Whether `encoding` is the canonical encoding of some group element.
pub open spec fn is_element(encoding: Seq<u8>) -> bool {
    exists|x: nat| encoding == #[trigger] point_of(x)
}

/// Whether `out` encodes the element `factor * P`, where `p` encodes `P`.
pub open spec fn is_multiple(out: Seq<u8>, factor: nat, p: Seq<u8>) -> bool {
    forall|x: nat| p == #[trigger] point_of(x) ==> out == point_of(mul_mod(factor, x))
}

/// Whether `out` encodes the element `P + Q`, where `p` and `q` encode `P` and `Q`.
pub open spec fn is_sum(out: Seq<u8>, p: Seq<u8>, q: Seq<u8>) -> bool {
    forall|x: nat, y: nat|
        p == #[trigger] point_of(x) && q == #[trigger] point_of(y) ==> out == point_of(
            add_mod(x, y),
        )
}

/// An integer modulo the group order, held as its canonical little-endian bytes.
#[derive(Clone, Copy, Debug)]
pub struct Scalar {
    bytes: [u8; 32],
}

impl View for Scalar {
    type V = nat;

    closed spec fn view(&self) -> nat {
        le_value(self.bytes@)
    }
}

/// A scalar that has to stay secret: a key, a nonce, or what is computed
/// from them. It is erased from memory when it is dropped.
pub struct SecretScalar {
    scalar: Scalar,
}

impl View for SecretScalar {
    type V = nat;

    closed spec fn view(&self) -> nat {
        self.scalar@
    }
}

impl Clone for SecretScalar {
    /// A copy of the secret, which is erased on its own when it is dropped.
    fn clone(&self) -> (copy: SecretScalar)
        ensures
            copy@ == self@,
    {
        SecretScalar { scalar: self.scalar }
    }
}

impl Drop for SecretScalar {
    /// Erases the scalar.
    fn drop(&mut self)
        opens_invariants none
        no_unwind
    {
        self.scalar.erase();
    }
}

impl SecretScalar {
    /// The secret that holds `scalar`.
    pub fn new(scalar: Scalar) -> (secret: SecretScalar)
        ensures
            secret@ == scalar@,
    {
        SecretScalar { scalar }
    }

    /// A fresh secret from the operating system's random generator.
    pub fn random() -> (secret: SecretScalar)
        ensures
            secret@ < group_order(),
    {
        SecretScalar { scalar: Scalar::random() }
    }

    /// The scalar, borrowed.
    pub fn scalar(&self) -> (scalar: &Scalar)
        ensures
            scalar@ == self@,
            self@ < group_order(),
    {
        proof {
            use_type_invariant(&self.scalar);
        }
        &self.scalar
    }
}

/// An element of the group, held as its canonical compressed encoding.
#[derive(Clone, Copy, Debug)]
pub struct GroupElement {
    bytes: [u8; 32],
}

impl View for GroupElement {
    type V = Seq<u8>;

    closed spec fn view(&self) -> Seq<u8> {
        self.bytes@
    }
}

/// Thirty-two bytes that claim to be the compressed encoding of a group
/// element; whether they are is found out by `decompress`.
#[derive(Clone, Copy, Debug, PartialEq, Eq)]
pub struct CompressedPoint(pub [u8; 32]);

impl View for CompressedPoint {
    type V = Seq<u8>;

    open spec fn view(&self) -> Seq<u8> {
        self.0@
    }
}

/// Calls `Scalar::random` of curve25519-dalek with rand_core's `OsRng`. The
/// scalar depends on the operating system's generator, so nothing is said of
/// it beyond what holds of every scalar.
#[verifier::external_body]
pub(crate) fn scalar_random() -> (r: Scalar) {
    Scalar { bytes: curve25519_dalek::scalar::Scalar::random(&mut rand_core::OsRng).to_bytes() }
}

/// Calls `Scalar::from_bytes_mod_order` of curve25519-dalek: the result is the
/// little-endian value of `bytes` reduced modulo the group order.
#[verifier::external_body]
pub(crate) fn scalar_reduce(bytes: [u8; 32]) -> (r: Scalar)
    ensures
        r@ == le_value(bytes@) % group_order(),
{
    Scalar { bytes: curve25519_dalek::scalar::Scalar::from_bytes_mod_order(bytes).to_bytes() }
}

/// Calls `Scalar::from_bytes_mod_order_wide` of curve25519-dalek: the result
/// is the little-endian value of the 64 bytes reduced modulo the group order.
#[verifier::external_body]
pub(crate) fn scalar_reduce_wide(bytes: &[u8; 64]) -> (r: Scalar)
    ensures
        r@ == le_value(bytes@) % group_order(),
{
    Scalar { bytes: curve25519_dalek::scalar::Scalar::from_bytes_mod_order_wide(bytes).to_bytes() }
}

/// Calls `Scalar::from_canonical_bytes` of curve25519-dalek, which accepts
/// `bytes` exactly if their little-endian value lies below the group order,
/// and then keeps them as they are.
#[verifier::external_body]
pub(crate) fn scalar_canonical(bytes: [u8; 32]) -> (r: Option<Scalar>)
    ensures
        r is Some <==> le_value(bytes@) < group_order(),
        r matches Some(s) ==> s.encoding() == bytes@,
{
    let parsed: Option<curve25519_dalek::scalar::Scalar> =
        curve25519_dalek::scalar::Scalar::from_canonical_bytes(bytes).into();
    match parsed {
        Some(_) => Some(Scalar { bytes }),
        None => None,
    }
}

/// Calls the addition of two scalars of curve25519-dalek.
#[verifier::external_body]
pub(crate) fn scalar_add(a: &Scalar, b: &Scalar) -> (r: Scalar)
    ensures
        r@ == add_mod(a@, b@),
{
    let x = curve25519_dalek::scalar::Scalar::from_bytes_mod_order(a.bytes);
    let y = curve25519_dalek::scalar::Scalar::from_bytes_mod_order(b.bytes);
    Scalar { bytes: (x + y).to_bytes() }
}

/// Calls the subtraction of two scalars of curve25519-dalek.
#[verifier::external_body]
pub(crate) fn scalar_sub(a: &Scalar, b: &Scalar) -> (r: Scalar)
    ensures
        r@ == sub_mod(a@, b@),
{
    let x = curve25519_dalek::scalar::Scalar::from_bytes_mod_order(a.bytes);
    let y = curve25519_dalek::scalar::Scalar::from_bytes_mod_order(b.bytes);
    Scalar { bytes: (x - y).to_bytes() }
}

/// Calls the multiplication of two scalars of curve25519-dalek.
#[verifier::external_body]
pub(crate) fn scalar_mul(a: &Scalar, b: &Scalar) -> (r: Scalar)
    ensures
        r@ == mul_mod(a@, b@),
{
    let x = curve25519_dalek::scalar::Scalar::from_bytes_mod_order(a.bytes);
    let y = curve25519_dalek::scalar::Scalar::from_bytes_mod_order(b.bytes);
    Scalar { bytes: (x * y).to_bytes() }
}

/// Calls `Scalar::invert` of curve25519-dalek, which raises the scalar to the
/// power of the group order less two: the inverse of a nonzero scalar, and
/// zero for zero.
#[verifier::external_body]
pub(crate) fn scalar_invert(a: &Scalar) -> (r: Scalar)
    ensures
        a@ != 0 ==> mul_mod(r@, a@) == 1,
        a@ == 0 ==> r@ == 0,
{
    let x = curve25519_dalek::scalar::Scalar::from_bytes_mod_order(a.bytes);
    Scalar { bytes: x.invert().to_bytes() }
}

/// Calls the equality of two scalars of curve25519-dalek, which compares
/// their canonical bytes in constant time.
#[verifier::external_body]
pub(crate) fn scalar_eq(a: &Scalar, b: &Scalar) -> (r: bool)
    ensures
        r == (a@ == b@),
{
    let x = curve25519_dalek::scalar::Scalar::from_bytes_mod_order(a.bytes);
    let y = curve25519_dalek::scalar::Scalar::from_bytes_mod_order(b.bytes);
    x == y
}

/// Compresses `RISTRETTO_BASEPOINT_POINT` of curve25519-dalek, the generator
/// `B` itself.
#[verifier::external_body]
pub(crate) fn point_generator() -> (r: GroupElement)
    ensures
        r@ == point_of(1),
{
    GroupElement { bytes: RISTRETTO_BASEPOINT_POINT.compress().to_bytes() }
}

/// Calls the multiplication of a scalar with `RISTRETTO_BASEPOINT_POINT` of
/// curve25519-dalek and compresses the product.
#[verifier::external_body]
pub(crate) fn point_base_mul(s: &Scalar) -> (r: GroupElement)
    ensures
        r@ == point_of(s@),
{
    let k = curve25519_dalek::scalar::Scalar::from_bytes_mod_order(s.bytes);
    GroupElement { bytes: (k * RISTRETTO_BASEPOINT_POINT).compress().to_bytes() }
}

/// Calls the multiplication of a scalar with a `RistrettoPoint` of
/// curve25519-dalek and compresses the product: `s * (x * B)` is
/// `(s * x) * B`, whichever `x` the element was given by.
#[verifier::external_body]
pub(crate) fn point_mul(s: &Scalar, p: &GroupElement) -> (r: GroupElement)
    ensures
        is_multiple(r@, s@, p@),
{
    let k = curve25519_dalek::scalar::Scalar::from_bytes_mod_order(s.bytes);
    let e = CompressedRistretto(p.bytes).decompress().unwrap();
    GroupElement { bytes: (k * e).compress().to_bytes() }
}

/// Calls the addition of two `RistrettoPoint`s of curve25519-dalek and
/// compresses the sum: `x * B + y * B` is `(x + y) * B`.
#[verifier::external_body]
pub(crate) fn point_add(p: &GroupElement, q: &GroupElement) -> (r: GroupElement)
    ensures
        is_sum(r@, p@, q@),
{
    let a = CompressedRistretto(p.bytes).decompress().unwrap();
    let b = CompressedRistretto(q.bytes).decompress().unwrap();
    GroupElement { bytes: (a + b).compress().to_bytes() }
}

/// Calls `CompressedRistretto::decompress` of curve25519-dalek, which
/// succeeds exactly on the canonical encodings of group elements.
#[verifier::external_body]
pub(crate) fn point_decompress(bytes: &[u8; 32]) -> (r: Option<GroupElement>)
    ensures
        r is Some <==> is_element(bytes@),
        r matches Some(e) ==> e@ == bytes@,
{
    match CompressedRistretto(*bytes).decompress() {
        Some(_) => Some(GroupElement { bytes: *bytes }),
        None => None,
    }
}

/// Calls `RistrettoPoint::from_uniform_bytes` of curve25519-dalek and
/// compresses the element. The result depends on the 64 bytes alone, so it is
/// given the name `uniform_point`.
#[verifier::external_body]
pub(crate) fn point_from_uniform(bytes: &[u8; 64]) -> (r: GroupElement)
    ensures
        r@ == uniform_point(bytes@),
{
    GroupElement { bytes: RistrettoPoint::from_uniform_bytes(bytes).compress().to_bytes() }
}

/// The group order is positive.
pub proof fn lemma_order_positive()
    ensures
        group_order() > 1,
{
    vstd::arithmetic::power2::lemma_pow2_pos(252);
}

/// A number below the group order has at most one inverse.
pub proof fn lemma_inverse_unique(r1: nat, r2: nat, a: nat)
    requires
        is_inverse(r1, a),
        is_inverse(r2, a),
    ensures
        r1 == r2,
{
    let q = group_order() as int;
    lemma_order_positive();
    // r1 = r1 * (a * r2) = (r1 * a) * r2 = r2, all modulo the order.
    vstd::arithmetic::div_mod::lemma_mul_mod_noop_general(r1 as int * a as int, r2 as int, q);
    vstd::arithmetic::div_mod::lemma_mul_mod_noop_general(r1 as int, a as int * r2 as int, q);
    vstd::arithmetic::mul::lemma_mul_is_associative(r1 as int, a as int, r2 as int);
    vstd::arithmetic::mul::lemma_mul_is_commutative(a as int, r2 as int);
    assert(((r1 * a) % (q as nat)) as int == (r1 as int * a as int) % q);
    assert(((r2 * a) % (q as nat)) as int == (r2 as int * a as int) % q);
    assert((1 * (r2 as int)) % q == (r1 as int * a as int * r2 as int) % q);
    assert((r1 as int * 1) % q == (r1 as int * (a as int * r2 as int)) % q);
    vstd::arithmetic::div_mod::lemma_small_mod(r1, q as nat);
    vstd::arithmetic::div_mod::lemma_small_mod(r2, q as nat);
}

/// A string of zero bytes denotes zero.
pub proof fn lemma_zeros_value(len: nat)
    ensures
        le_value(zeros(len)) == 0,
    decreases len,
{
    if len > 0 {
        lemma_zeros_value((len - 1) as nat);
        assert(zeros(len).drop_first() =~= zeros((len - 1) as nat));
    }
}

/// Two elements have one sum only.
pub proof fn lemma_sum_unique(first: Seq<u8>, second: Seq<u8>, p: Seq<u8>, q: Seq<u8>)
    requires
        is_element(p),
        is_element(q),
        is_sum(first, p, q),
        is_sum(second, p, q),
    ensures
        first == second,
{
    let x = choose|x: nat| p == #[trigger] point_of(x);
    let y = choose|y: nat| q == #[trigger] point_of(y);
    assert(p == point_of(x) && q == point_of(y));
}

impl Scalar {
    /// What holds of every scalar: it lies below the group order.
    #[verifier::type_invariant]
    pub open spec fn canonical(self) -> bool {
        self@ < group_order()
    }

    /// The 32 canonical little-endian bytes of the scalar.
    pub closed spec fn encoding(&self) -> Seq<u8> {
        self.bytes@
    }

    /// The encoding has 32 bytes, and the scalar is their little-endian value.
    pub proof fn lemma_encoding(&self)
        ensures
            self.encoding().len() == 32,
            le_value(self.encoding()) == self@,
    {
    }

    /// A scalar is what its encoding holds: two scalars with one encoding
    /// are the same.
    pub proof fn lemma_encoding_decides(&self, other: &Scalar)
        requires
            self.encoding() == other.encoding(),
        ensures
            *self == *other,
    {
        assert(self.bytes =~= other.bytes);
    }

    /// Erases the scalar from memory: it is zero afterwards.
    pub fn erase(&mut self)
        ensures
            final(self)@ == 0,
        opens_invariants none
        no_unwind
    {
        proof {
            lemma_zeros_value(32);
            lemma_order_positive();
        }
        erase(&mut self.bytes);
    }

    /// A fresh scalar from the operating system's random generator.
    pub fn random() -> (r: Scalar)
        ensures
            r@ < group_order(),
    {
        let r = scalar_random();
        proof {
            use_type_invariant(&r);
        }
        r
    }

    /// The scalar that 32 little-endian bytes denote modulo the group order.
    pub fn from_bytes_mod_order(bytes: [u8; 32]) -> (r: Scalar)
        ensures
            r@ == le_value(bytes@) % group_order(),
    {
        scalar_reduce(bytes)
    }

    /// The scalar with the canonical encoding `bytes`, if they are one.
    pub fn from_canonical_bytes(bytes: [u8; 32]) -> (r: Option<Scalar>)
        ensures
            r is Some <==> le_value(bytes@) < group_order(),
            r matches Some(s) ==> s.encoding() == bytes@ && s@ == le_value(bytes@),
    {
        scalar_canonical(bytes)
    }

    /// The canonical encoding of the scalar.
    pub fn to_bytes(&self) -> (bytes: [u8; 32])
        ensures
            bytes@ == self.encoding(),
            le_value(bytes@) == self@,
            self@ < group_order(),
    {
        proof {
            use_type_invariant(self);
        }
        self.bytes
    }

    /// The multiplicative inverse, or zero for zero.
    pub fn invert(&self) -> (r: Scalar)
        ensures
            r@ == inverse(self@),
            r@ < group_order(),
            self@ != 0 ==> is_inverse(r@, self@),
    {
        let r = scalar_invert(self);
        proof {
            use_type_invariant(self);
            use_type_invariant(&r);
            lemma_order_positive();
            vstd::arithmetic::div_mod::lemma_small_mod(self@, group_order());
            if self@ != 0 {
                assert(is_inverse(r@, self@));
                lemma_inverse_unique(r@, inverse(self@), self@);
            }
        }
        r
    }
}

impl GroupElement {
    /// What holds of every element: its bytes are the encoding of one.
    #[verifier::type_invariant]
    pub open spec fn valid(self) -> bool {
        is_element(self@)
    }

    /// The compressed encoding of the element.
    pub fn compress(&self) -> (c: CompressedPoint)
        ensures
            c@ == self@,
            is_element(self@),
    {
        proof {
            use_type_invariant(self);
        }
        CompressedPoint(self.bytes)
    }

    /// The generator `B` of the group.
    pub fn generator() -> (r: GroupElement)
        ensures
            r@ == point_of(1),
    {
        point_generator()
    }

    /// The element `s * B`.
    pub fn base_multiple(s: &Scalar) -> (r: GroupElement)
        ensures
            r@ == point_of(s@),
    {
        point_base_mul(s)
    }

    /// The element `s * P`.
    pub fn multiple(&self, s: &Scalar) -> (r: GroupElement)
        ensures
            is_multiple(r@, s@, self@),
            is_element(self@),
            is_element(r@),
    {
        let r = point_mul(s, self);
        proof {
            use_type_invariant(self);
            use_type_invariant(&r);
        }
        r
    }

    /// The element `P + Q`.
    pub fn plus(&self, other: &GroupElement) -> (r: GroupElement)
        ensures
            is_sum(r@, self@, other@),
            is_element(r@),
    {
        let r = point_add(self, other);
        proof {
            use_type_invariant(&r);
        }
        r
    }

    /// The element to which 64 uniform bytes are mapped.
    pub fn from_uniform_bytes(bytes: &[u8; 64]) -> (r: GroupElement)
        ensures
            r@ == uniform_point(bytes@),
            is_element(r@),
    {
        let r = point_from_uniform(bytes);
        proof {
            use_type_invariant(&r);
        }
        r
    }
}

impl CompressedPoint {
    /// The element that the bytes encode, if they encode one.
    pub fn decompress(&self) -> (r: Option<GroupElement>)
        ensures
            r is Some <==> is_element(self@),
            r matches Some(e) ==> e@ == self@,
    {
        point_decompress(&self.0)
    }

    /// The 32 bytes.
    pub fn to_bytes(&self) -> (bytes: [u8; 32])
        ensures
            bytes@ == self@,
    {
        self.0
    }

    /// The compressed point that a byte string holds, which has to be 32
    /// bytes long.
    pub fn from_slice(bytes: &[u8]) -> (r: Result<CompressedPoint, PPRFError>)
        ensures
            match r {
                Ok(p) => bytes@.len() == COMPRESSED_POINT_LEN && p@ == bytes@,
                Err(e) => bytes@.len() != COMPRESSED_POINT_LEN && e
                    == PPRFError::SerializationError,
            },
    {
        if bytes.len() != COMPRESSED_POINT_LEN {
            return Err(PPRFError::SerializationError);
        }
        let mut out = [0u8; 32];
        let mut i: usize = 0;
        while i < 32
            invariant
                i <= 32,
                bytes@.len() == 32,
                forall|k: int| 0 <= k < i ==> out@[k] == bytes@[k],
            decreases 32 - i,
        {
            out[i] = bytes[i];
            i += 1;
        }
        assert(out@ =~= bytes@);
        Ok(CompressedPoint(out))
    }
}

} // verus!
