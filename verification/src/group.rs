//! The group abstraction: scalars of Z_q and points of the prime-order group G
//! (ristretto255), each held by its canonical 32-byte encoding.
//!
//! The arithmetic itself is done by `curve25519-dalek-ng`. Every call into it
//! stands in one of the private functions at the end of this file, whose
//! contracts are believed, not proved.
use vstd::prelude::*;
use curve25519_dalek_ng::ristretto::{CompressedRistretto, RistrettoPoint};
use curve25519_dalek_ng::traits::VartimeMultiscalarMul;

verus! {

/// The order q of the group: 2^252 + 27742317777372353535851937790883648493.
pub open spec fn group_order() -> nat {
    7237005577332262213973186563042994240857116359379907606001950938285454250989nat
}

/// The number that a sequence of bytes encodes, least significant byte first.
pub open spec fn le_value(bytes: Seq<u8>) -> nat
    decreases bytes.len(),
{
    if bytes.len() == 0 {
        0
    } else {
        bytes[0] as nat + 256 * le_value(bytes.drop_first())
    }
}

/// The canonical encoding of the fixed generator g.
pub open spec fn generator_encoding() -> Seq<u8> {
    seq![
        0xe2u8, 0xf2u8, 0xaeu8, 0x0au8, 0x6au8, 0xbcu8, 0x4eu8, 0x71u8,
        0xa8u8, 0x84u8, 0xa9u8, 0x61u8, 0xc5u8, 0x00u8, 0x51u8, 0x5fu8,
        0x58u8, 0xe3u8, 0x0bu8, 0x6au8, 0xa5u8, 0x82u8, 0xddu8, 0x8du8,
        0xb6u8, 0xa6u8, 0x59u8, 0x45u8, 0xe0u8, 0x8du8, 0x2du8, 0x76u8,
    ]
}

/// Whether 32 bytes are the canonical encoding of a group element.
pub uninterp spec fn ristretto_decodes(bytes: Seq<u8>) -> bool;

/// The encoding of the sum of the two encoded group elements.
pub uninterp spec fn ristretto_add(a: Seq<u8>, b: Seq<u8>) -> Seq<u8>;

/// The encoding of the difference of the two encoded group elements.
pub uninterp spec fn ristretto_sub(a: Seq<u8>, b: Seq<u8>) -> Seq<u8>;

/// The encoding of `scalar` times the encoded group element.
pub uninterp spec fn ristretto_mul(scalar: nat, point: Seq<u8>) -> Seq<u8>;

/// The encoding of the sum of `scalars[i]` times the element that `points[i]` encodes.
pub uninterp spec fn ristretto_multiscalar_mul(scalars: Seq<nat>, points: Seq<Seq<u8>>) -> Seq<u8>;

/// The encoding of `scalar` times the generator g.
pub open spec fn base_mul(scalar: nat) -> Seq<u8> {
    ristretto_mul(scalar, generator_encoding())
}

/// A group law: multiples of the generator add up as their scalars do. If
/// the summands are j·g and k·g, the sum is (j + k)·g.
pub open spec fn adds_multiples(a: Seq<u8>, b: Seq<u8>, sum: Seq<u8>) -> bool {
    forall|j: nat, k: nat|
        j < group_order() && k < group_order() && a == #[trigger] base_mul(j) && b
            == #[trigger] base_mul(k) ==> sum == base_mul((j + k) % group_order())
}

/// A group law: what was added can be taken away again. If the minuend is
/// B + X, where B is the subtrahend, the difference is X.
pub open spec fn cancels(a: Seq<u8>, b: Seq<u8>, difference: Seq<u8>) -> bool {
    forall|x: Seq<u8>|
        ristretto_decodes(x) && a == #[trigger] ristretto_add(b, x) ==> difference == x
}

/// A group law: scalars act on the generator in either order. If the
/// element is k·g, its product with s is k·(s·g).
pub open spec fn swaps_scalars(scalar: nat, point: Seq<u8>, product: Seq<u8>) -> bool {
    forall|k: nat|
        k < group_order() && point == #[trigger] base_mul(k) ==> product == ristretto_mul(
            k,
            base_mul(scalar),
        )
}

/// A group law: a multiple of a multiple of the generator is a multiple of
/// the generator. If the element is k·g, its product with s is (s·k)·g.
pub open spec fn multiplies_multiples(scalar: nat, point: Seq<u8>, product: Seq<u8>) -> bool {
    forall|k: nat|
        k < group_order() && point == #[trigger] base_mul(k) ==> product == base_mul(
            (scalar * k) % group_order(),
        )
}

/// The sum of the products `scalars[i]`·`ks[i]` over the first `upto` places.
pub open spec fn dot(scalars: Seq<nat>, ks: Seq<nat>, upto: nat) -> nat
    decreases upto,
{
    if upto == 0 {
        0
    } else {
        dot(scalars, ks, (upto - 1) as nat) + scalars[upto - 1] * ks[upto - 1]
    }
}

/// A group law: multiples of the generator, each taken a number of times,
/// add up to a multiple of the generator. If the points are kᵢ·g, the sum
/// of the sᵢ·(kᵢ·g) is (Σ sᵢ·kᵢ)·g.
pub open spec fn sums_multiples(scalars: Seq<nat>, points: Seq<Seq<u8>>, sum: Seq<u8>) -> bool {
    forall|ks: Seq<nat>|
        ks.len() == points.len() && (forall|i: int|
            0 <= i < ks.len() ==> (#[trigger] ks[i]) < group_order() && points[i] == base_mul(
                ks[i],
            )) ==> sum == base_mul(#[trigger] dot(scalars, ks, ks.len()) % group_order())
}

/// A group law: the generator has order q, so that different scalars below q
/// have different multiples of it. If the multiple is also t·g, then t is
/// the scalar.
pub open spec fn tells_apart(scalar: nat, multiple: Seq<u8>) -> bool {
    forall|t: nat| t < group_order() && multiple == #[trigger] base_mul(t) ==> t == scalar
}

/// Two byte strings of one length that encode the same number are the same.
pub proof fn lemma_le_value_injective(a: Seq<u8>, b: Seq<u8>)
    requires
        a.len() == b.len(),
        le_value(a) == le_value(b),
    ensures
        a == b,
    decreases a.len(),
{
    if a.len() == 0 {
        assert(a =~= b);
    } else {
        let x = le_value(a.drop_first());
        let y = le_value(b.drop_first());
        assert(a[0] as nat + 256 * x == b[0] as nat + 256 * y);
        assert(a[0] == b[0] && x == y);
        lemma_le_value_injective(a.drop_first(), b.drop_first());
        assert(a =~= seq![a[0]] + a.drop_first());
        assert(b =~= seq![b[0]] + b.drop_first());
    }
}

/// Bytes that are all zero encode the number 0.
pub proof fn lemma_le_value_zero(bytes: Seq<u8>)
    requires
        forall|i: int| 0 <= i < bytes.len() ==> bytes[i] == 0,
    ensures
        le_value(bytes) == 0,
    decreases bytes.len(),
{
    if bytes.len() > 0 {
        lemma_le_value_zero(bytes.drop_first());
    }
}

/// `StdRng` of rand: a random number generator that a party owns. Nothing
/// is known of its state, so nothing is known of what it draws.
#[verifier::external_type_specification]
#[verifier::external_body]
pub struct ExStdRng(rand::rngs::StdRng);

/// An element of Z_q, held by its canonical little-endian encoding.
#[derive(Clone, Copy, Debug)]
pub struct Scalar {
    bytes: [u8; 32],
}

impl View for Scalar {
    type V = nat;

    /// The number below q that the scalar stands for.
    open spec fn view(&self) -> nat {
        le_value(self.encoding())
    }
}

impl Scalar {
    /// The 32 bytes that hold the scalar, least significant first.
    pub closed spec fn encoding(self) -> Seq<u8> {
        self.bytes@
    }

    /// The encoding is canonical: 32 bytes whose value is below q. Every
    /// scalar that the program holds is so.
    #[verifier::type_invariant]
    pub open spec fn wf(self) -> bool {
        &&& self.encoding().len() == 32
        &&& self@ < group_order()
    }

    /// The scalar that 32 little-endian bytes stand for, reduced modulo q.
    pub fn from_bytes_mod_order(bytes: [u8; 32]) -> (s: Scalar)
        ensures
            s.wf(),
            s@ == le_value(bytes@) % group_order(),
    {
        Scalar { bytes: scalar_reduce(&bytes) }
    }

    /// The scalar with the given encoding, if the encoding is canonical.
    pub fn from_canonical_bytes(bytes: [u8; 32]) -> (r: Option<Scalar>)
        ensures
            r.is_some() <==> le_value(bytes@) < group_order(),
            r.is_some() ==> r.unwrap().wf() && r.unwrap().encoding() == bytes@,
    {
        let reduced = scalar_reduce(&bytes);
        if bytes_equal(&reduced, &bytes) {
            Some(Scalar { bytes })
        } else {
            proof {
                if le_value(bytes@) < group_order() {
                    lemma_le_value_injective(reduced@, bytes@);
                }
            }
            None
        }
    }

    /// The scalar that stands for a small number.
    pub fn from_u64(x: u64) -> (s: Scalar)
        ensures
            s.wf(),
            s@ == x,
    {
        Scalar { bytes: scalar_from_u64(x) }
    }

    /// The scalar that stands for a small number.
    pub fn from_u32(x: u32) -> (s: Scalar)
        ensures
            s.wf(),
            s@ == x,
    {
        Scalar::from_u64(x as u64)
    }

    /// The scalar 0.
    pub fn zero() -> (s: Scalar)
        ensures
            s.wf(),
            s@ == 0,
    {
        Scalar::from_u64(0)
    }

    /// The scalar 1.
    pub fn one() -> (s: Scalar)
        ensures
            s.wf(),
            s@ == 1,
    {
        Scalar::from_u64(1)
    }

    /// A scalar drawn from a generator that is seeded afresh.
    pub fn random() -> (s: Scalar)
        ensures
            s.wf(),
    {
        let mut rng = fresh_generator();
        Scalar::random_with(&mut rng)
    }

    /// A scalar drawn from the generator.
    pub fn random_with(rng: &mut rand::rngs::StdRng) -> (s: Scalar)
        ensures
            s.wf(),
    {
        Scalar { bytes: scalar_random(rng) }
    }

    /// The canonical encoding.
    pub fn to_bytes(&self) -> (bytes: [u8; 32])
        ensures
            bytes@ == self.encoding(),
            le_value(bytes@) == self@,
    {
        self.bytes
    }

    /// The sum modulo q.
    pub fn add(&self, other: &Scalar) -> (s: Scalar)
        ensures
            s.wf(),
            s@ == (self@ + other@) % group_order(),
    {
        proof {
            use_type_invariant(self);
            use_type_invariant(other);
            vstd::arithmetic::div_mod::lemma_small_mod(self@, group_order());
            vstd::arithmetic::div_mod::lemma_small_mod(other@, group_order());
        }
        Scalar { bytes: scalar_add(&self.bytes, &other.bytes) }
    }

    /// The difference modulo q.
    pub fn sub(&self, other: &Scalar) -> (s: Scalar)
        ensures
            s.wf(),
            s@ == (self@ - other@) % (group_order() as int),
    {
        proof {
            use_type_invariant(self);
            use_type_invariant(other);
            vstd::arithmetic::div_mod::lemma_small_mod(self@, group_order());
            vstd::arithmetic::div_mod::lemma_small_mod(other@, group_order());
        }
        Scalar { bytes: scalar_sub(&self.bytes, &other.bytes) }
    }

    /// The product modulo q.
    pub fn mul(&self, other: &Scalar) -> (s: Scalar)
        ensures
            s.wf(),
            s@ == (self@ * other@) % group_order(),
    {
        proof {
            use_type_invariant(self);
            use_type_invariant(other);
            vstd::arithmetic::div_mod::lemma_small_mod(self@, group_order());
            vstd::arithmetic::div_mod::lemma_small_mod(other@, group_order());
        }
        Scalar { bytes: scalar_mul(&self.bytes, &other.bytes) }
    }

    /// The inverse in Z_q, which every scalar but 0 has.
    pub fn invert(&self) -> (inverse: Option<Scalar>)
        ensures
            inverse.is_some() <==> self@ != 0,
            inverse.is_some() ==> inverse.unwrap().wf() && (self@ * inverse.unwrap()@)
                % group_order() == 1,
    {
        proof {
            use_type_invariant(self);
        }
        let zero = [0u8; 32];
        if bytes_equal(&self.bytes, &zero) {
            proof {
                lemma_le_value_zero(zero@);
            }
            None
        } else {
            proof {
                if self@ == 0 {
                    lemma_le_value_zero(zero@);
                    lemma_le_value_injective(self.bytes@, zero@);
                }
            }
            Some(Scalar { bytes: scalar_invert(&self.bytes) })
        }
    }

    /// Whether the two scalars are the same element of Z_q.
    pub fn equals(&self, other: &Scalar) -> (same: bool)
        ensures
            same == (self@ == other@),
            same == (self.encoding() == other.encoding()),
    {
        proof {
            use_type_invariant(self);
            use_type_invariant(other);
            if self@ == other@ {
                lemma_le_value_injective(self.encoding(), other.encoding());
            }
        }
        bytes_equal(&self.bytes, &other.bytes)
    }
}

impl PartialEq for Scalar {
    fn eq(&self, other: &Scalar) -> (same: bool) {
        self.equals(other)
    }
}

impl Eq for Scalar {}

impl vstd::std_specs::cmp::PartialEqSpecImpl for Scalar {
    open spec fn obeys_eq_spec() -> bool {
        true
    }

    open spec fn eq_spec(&self, other: &Scalar) -> bool {
        self.encoding() == other.encoding()
    }
}

/// An element of the group G, held by its canonical encoding.
#[derive(Clone, Copy, Debug)]
pub struct Point {
    bytes: [u8; 32],
}

impl View for Point {
    type V = Seq<u8>;

    /// The canonical encoding of the element.
    closed spec fn view(&self) -> Seq<u8> {
        self.bytes@
    }
}

impl Point {
    /// The bytes are the canonical encoding of a group element. Every point
    /// that the program holds is so.
    #[verifier::type_invariant]
    pub open spec fn wf(self) -> bool {
        &&& self@.len() == 32
        &&& ristretto_decodes(self@)
    }

    /// The element with the given encoding, if the bytes are a canonical encoding.
    pub fn from_bytes(bytes: [u8; 32]) -> (r: Option<Point>)
        ensures
            r.is_some() <==> ristretto_decodes(bytes@),
            r.is_some() ==> r.unwrap().wf() && r.unwrap()@ == bytes@,
    {
        if ristretto_check(&bytes) {
            Some(Point { bytes })
        } else {
            None
        }
    }

    /// The canonical encoding.
    pub fn to_bytes(&self) -> (bytes: [u8; 32])
        ensures
            bytes@ == self@,
    {
        self.bytes
    }

    /// The fixed generator g.
    pub fn generator() -> (p: Point)
        ensures
            p.wf(),
            p@ == generator_encoding(),
    {
        Point { bytes: ristretto_basepoint() }
    }

    /// An element drawn from a generator that is seeded afresh.
    pub fn random() -> (p: Point)
        ensures
            p.wf(),
    {
        let mut rng = fresh_generator();
        Point::random_with(&mut rng)
    }

    /// An element drawn from the generator.
    pub fn random_with(rng: &mut rand::rngs::StdRng) -> (p: Point)
        ensures
            p.wf(),
    {
        Point { bytes: ristretto_random(rng) }
    }

    /// The sum of the two elements.
    pub fn add(&self, other: &Point) -> (p: Point)
        ensures
            p.wf(),
            p@ == ristretto_add(self@, other@),
            adds_multiples(self@, other@, p@),
    {
        proof {
            use_type_invariant(self);
            use_type_invariant(other);
        }
        Point { bytes: ristretto_add_bytes(&self.bytes, &other.bytes) }
    }

    /// The difference of the two elements.
    pub fn sub(&self, other: &Point) -> (p: Point)
        ensures
            p.wf(),
            p@ == ristretto_sub(self@, other@),
            cancels(self@, other@, p@),
    {
        proof {
            use_type_invariant(self);
            use_type_invariant(other);
        }
        Point { bytes: ristretto_sub_bytes(&self.bytes, &other.bytes) }
    }

    /// The element multiplied by a scalar.
    pub fn mul(&self, scalar: &Scalar) -> (p: Point)
        ensures
            p.wf(),
            p@ == ristretto_mul(scalar@, self@),
            swaps_scalars(scalar@, self@, p@),
            multiplies_multiples(scalar@, self@, p@),
    {
        proof {
            use_type_invariant(self);
            use_type_invariant(scalar);
        }
        Point { bytes: ristretto_mul_bytes(&scalar.bytes, &self.bytes) }
    }

    /// The generator multiplied by a scalar.
    pub fn base_mul(scalar: &Scalar) -> (p: Point)
        ensures
            p.wf(),
            p@ == base_mul(scalar@),
            tells_apart(scalar@, p@),
    {
        proof {
            use_type_invariant(scalar);
        }
        Point { bytes: ristretto_base_mul_bytes(&scalar.bytes) }
    }

    /// The sum of the points, each multiplied by the scalar at its place.
    pub fn multiscalar_mul(scalars: &Vec<Scalar>, points: &Vec<Point>) -> (p: Point)
        requires
            scalars@.len() == points@.len(),
        ensures
            p.wf(),
            p@ == ristretto_multiscalar_mul(values(scalars@), encodings(points@)),
            sums_multiples(values(scalars@), encodings(points@), p@),
    {
        Point { bytes: ristretto_multiscalar_mul_bytes(scalars, points) }
    }

    /// Whether the two are the same group element.
    pub fn equals(&self, other: &Point) -> (same: bool)
        ensures
            same == (self@ == other@),
    {
        bytes_equal(&self.bytes, &other.bytes)
    }
}

impl PartialEq for Point {
    fn eq(&self, other: &Point) -> (same: bool) {
        self.equals(other)
    }
}

impl Eq for Point {}

impl vstd::std_specs::cmp::PartialEqSpecImpl for Point {
    open spec fn obeys_eq_spec() -> bool {
        true
    }

    open spec fn eq_spec(&self, other: &Point) -> bool {
        self@ == other@
    }
}

/// The encodings of a sequence of points.
pub open spec fn encodings(points: Seq<Point>) -> Seq<Seq<u8>> {
    Seq::new(points.len(), |i: int| points[i]@)
}

/// The numbers that a sequence of scalars stands for.
pub open spec fn values(scalars: Seq<Scalar>) -> Seq<nat> {
    Seq::new(scalars.len(), |i: int| scalars[i]@)
}

/// Whether two arrays of 32 bytes hold the same bytes.
pub fn bytes_equal(a: &[u8; 32], b: &[u8; 32]) -> (same: bool)
    ensures
        same == (a@ == b@),
{
    let mut i: usize = 0;
    while i < 32
        invariant
            i <= 32,
            forall|j: int| 0 <= j < i ==> a@[j] == b@[j],
        decreases 32 - i,
    {
        if a[i] != b[i] {
            return false;
        }
        i += 1;
    }
    assert(a@ =~= b@);
    true
}

/// `Scalar::from_bytes_mod_order` of curve25519-dalek-ng: the canonical
/// encoding of the value of `bytes` modulo q.
#[verifier::external_body]
fn scalar_reduce(bytes: &[u8; 32]) -> (r: [u8; 32])
    ensures
        le_value(r@) == le_value(bytes@) % group_order(),
{
    curve25519_dalek_ng::scalar::Scalar::from_bytes_mod_order(*bytes).to_bytes()
}

/// `Scalar::from(u64)` of curve25519-dalek-ng: the encoding of a number below 2^64.
#[verifier::external_body]
fn scalar_from_u64(x: u64) -> (r: [u8; 32])
    ensures
        le_value(r@) == x,
{
    curve25519_dalek_ng::scalar::Scalar::from(x).to_bytes()
}

/// `SeedableRng::from_entropy` of rand, for `StdRng`: a generator seeded
/// from the system's entropy.
#[verifier::external_body]
pub(crate) fn fresh_generator() -> (rng: rand::rngs::StdRng) {
    rand::SeedableRng::from_entropy()
}

/// `Scalar::random` of curve25519-dalek-ng on the generator: the canonical
/// encoding of some scalar.
#[verifier::external_body]
fn scalar_random(rng: &mut rand::rngs::StdRng) -> (r: [u8; 32])
    ensures
        le_value(r@) < group_order(),
{
    curve25519_dalek_ng::scalar::Scalar::random(rng).to_bytes()
}

/// `Scalar + Scalar` of curve25519-dalek-ng: the canonical encoding of the sum
/// modulo q.
#[verifier::external_body]
fn scalar_add(a: &[u8; 32], b: &[u8; 32]) -> (r: [u8; 32])
    ensures
        le_value(r@) == (le_value(a@) % group_order() + le_value(b@) % group_order())
            % group_order(),
{
    let a = curve25519_dalek_ng::scalar::Scalar::from_bytes_mod_order(*a);
    let b = curve25519_dalek_ng::scalar::Scalar::from_bytes_mod_order(*b);
    (a + b).to_bytes()
}

/// `Scalar - Scalar` of curve25519-dalek-ng: the canonical encoding of the
/// difference modulo q.
#[verifier::external_body]
fn scalar_sub(a: &[u8; 32], b: &[u8; 32]) -> (r: [u8; 32])
    ensures
        le_value(r@) == (le_value(a@) % group_order() - le_value(b@) % group_order()) % (
        group_order() as int),
{
    let a = curve25519_dalek_ng::scalar::Scalar::from_bytes_mod_order(*a);
    let b = curve25519_dalek_ng::scalar::Scalar::from_bytes_mod_order(*b);
    (a - b).to_bytes()
}

/// `Scalar * Scalar` of curve25519-dalek-ng: the canonical encoding of the
/// product modulo q.
#[verifier::external_body]
fn scalar_mul(a: &[u8; 32], b: &[u8; 32]) -> (r: [u8; 32])
    ensures
        le_value(r@) == ((le_value(a@) % group_order()) * (le_value(b@) % group_order()))
            % group_order(),
{
    let a = curve25519_dalek_ng::scalar::Scalar::from_bytes_mod_order(*a);
    let b = curve25519_dalek_ng::scalar::Scalar::from_bytes_mod_order(*b);
    (a * b).to_bytes()
}

/// `Scalar::invert` of curve25519-dalek-ng: the canonical encoding of the
/// inverse modulo q of a scalar that is not 0.
#[verifier::external_body]
fn scalar_invert(a: &[u8; 32]) -> (r: [u8; 32])
    requires
        0 < le_value(a@) < group_order(),
    ensures
        le_value(r@) < group_order(),
        (le_value(a@) * le_value(r@)) % group_order() == 1,
{
    curve25519_dalek_ng::scalar::Scalar::from_bytes_mod_order(*a).invert().to_bytes()
}

/// `CompressedRistretto::decompress` of curve25519-dalek-ng: whether the bytes
/// are the canonical encoding of a group element.
#[verifier::external_body]
fn ristretto_check(bytes: &[u8; 32]) -> (ok: bool)
    ensures
        ok == ristretto_decodes(bytes@),
{
    curve25519_dalek_ng::ristretto::CompressedRistretto(*bytes).decompress().is_some()
}

/// `RISTRETTO_BASEPOINT_COMPRESSED` of curve25519-dalek-ng: the encoding of the
/// generator, which decodes.
#[verifier::external_body]
fn ristretto_basepoint() -> (r: [u8; 32])
    ensures
        r@ == generator_encoding(),
        ristretto_decodes(r@),
{
    curve25519_dalek_ng::constants::RISTRETTO_BASEPOINT_COMPRESSED.to_bytes()
}

/// `RistrettoPoint::random` of curve25519-dalek-ng on the generator: the
/// encoding of some group element.
#[verifier::external_body]
fn ristretto_random(rng: &mut rand::rngs::StdRng) -> (r: [u8; 32])
    ensures
        ristretto_decodes(r@),
{
    curve25519_dalek_ng::ristretto::RistrettoPoint::random(rng).compress().to_bytes()
}

/// `RistrettoPoint + RistrettoPoint` of curve25519-dalek-ng, on the elements
/// that the two encodings stand for. The sum is a group element again, and
/// multiples of the generator add up as their scalars do.
#[verifier::external_body]
fn ristretto_add_bytes(a: &[u8; 32], b: &[u8; 32]) -> (r: [u8; 32])
    requires
        ristretto_decodes(a@),
        ristretto_decodes(b@),
    ensures
        r@ == ristretto_add(a@, b@),
        ristretto_decodes(r@),
        adds_multiples(a@, b@, r@),
{
    let a = curve25519_dalek_ng::ristretto::CompressedRistretto(*a).decompress().unwrap();
    let b = curve25519_dalek_ng::ristretto::CompressedRistretto(*b).decompress().unwrap();
    (a + b).compress().to_bytes()
}

/// `RistrettoPoint - RistrettoPoint` of curve25519-dalek-ng, on the elements
/// that the two encodings stand for. The difference is a group element
/// again, and taking away what was added gives back the other summand.
#[verifier::external_body]
fn ristretto_sub_bytes(a: &[u8; 32], b: &[u8; 32]) -> (r: [u8; 32])
    requires
        ristretto_decodes(a@),
        ristretto_decodes(b@),
    ensures
        r@ == ristretto_sub(a@, b@),
        ristretto_decodes(r@),
        cancels(a@, b@, r@),
{
    let a = curve25519_dalek_ng::ristretto::CompressedRistretto(*a).decompress().unwrap();
    let b = curve25519_dalek_ng::ristretto::CompressedRistretto(*b).decompress().unwrap();
    (a - b).compress().to_bytes()
}

/// `Scalar * RistrettoPoint` of curve25519-dalek-ng, on the scalar and the
/// element that the encodings stand for. The product is a group element
/// again, scalars act on the generator in either order, and a multiple of a
/// multiple of the generator is the multiple by the product of the scalars.
#[verifier::external_body]
fn ristretto_mul_bytes(scalar: &[u8; 32], point: &[u8; 32]) -> (r: [u8; 32])
    requires
        le_value(scalar@) < group_order(),
        ristretto_decodes(point@),
    ensures
        r@ == ristretto_mul(le_value(scalar@), point@),
        ristretto_decodes(r@),
        swaps_scalars(le_value(scalar@), point@, r@),
        multiplies_multiples(le_value(scalar@), point@, r@),
{
    let s = curve25519_dalek_ng::scalar::Scalar::from_bytes_mod_order(*scalar);
    let p = curve25519_dalek_ng::ristretto::CompressedRistretto(*point).decompress().unwrap();
    (s * p).compress().to_bytes()
}

/// `Scalar * RISTRETTO_BASEPOINT_TABLE` of curve25519-dalek-ng: the generator
/// multiplied by the scalar, as `Scalar * RistrettoPoint` gives it. The
/// generator has order q, so no other scalar below q has the same multiple.
#[verifier::external_body]
fn ristretto_base_mul_bytes(scalar: &[u8; 32]) -> (r: [u8; 32])
    requires
        le_value(scalar@) < group_order(),
    ensures
        r@ == ristretto_mul(le_value(scalar@), generator_encoding()),
        ristretto_decodes(r@),
        tells_apart(le_value(scalar@), r@),
{
    let s = curve25519_dalek_ng::scalar::Scalar::from_bytes_mod_order(*scalar);
    (&s * &curve25519_dalek_ng::constants::RISTRETTO_BASEPOINT_TABLE).compress().to_bytes()
}

/// `RistrettoPoint::vartime_multiscalar_mul` of curve25519-dalek-ng, on the
/// scalars and the elements that the encodings stand for. The sum is a
/// group element again, and for multiples of the generator it is the
/// multiple by the sum of the products.
#[verifier::external_body]
fn ristretto_multiscalar_mul_bytes(scalars: &Vec<Scalar>, points: &Vec<Point>) -> (r: [u8; 32])
    requires
        scalars@.len() == points@.len(),
    ensures
        r@ == ristretto_multiscalar_mul(values(scalars@), encodings(points@)),
        ristretto_decodes(r@),
        sums_multiples(values(scalars@), encodings(points@), r@),
{
    let scalars = scalars.iter().map(|s| curve25519_dalek_ng::scalar::Scalar::from_bits(s.bytes));
    let points = points.iter().map(|p| CompressedRistretto(p.bytes).decompress().unwrap());
    RistrettoPoint::vartime_multiscalar_mul(scalars, points).compress().to_bytes()
}

} // verus!
