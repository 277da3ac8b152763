//! The parameters of a session, the one-time pad between Z_q and G, and the
//! choice of the cheapest parameters.
use vstd::prelude::*;
use crate::group::{group_order, le_value, Point, Scalar};

verus! {

/// The parameters of a cut-and-choose session.
#[derive(Clone, Debug)]
pub struct Params {
    /// The proportion p of the commitments that stay closed, in thousandths.
    pub closed_proportion: u16,
    /// The number B of commitments in a bucket.
    pub bucket_size: u8,
    /// The base h of the ElGamal commitments, independent of the generator.
    pub elgamal_base: Point,
    /// The number of secrets to encrypt, one bucket each.
    pub n_encryptions: usize,
}

/// `num` divided by `den`, rounded up.
pub open spec fn ceil_div(num: nat, den: nat) -> nat {
    ((num + den - 1) / (den as int)) as nat
}

impl Params {
    /// NB: the number of commitments that stay closed, B for each bucket.
    pub open spec fn spec_NB(&self) -> nat {
        (self.n_encryptions * self.bucket_size) as nat
    }

    /// M = ⌈NB / p⌉: the number of commitments made.
    pub open spec fn spec_M(&self) -> nat {
        ceil_div(self.spec_NB() * 1000, self.closed_proportion as nat)
    }

    /// M − NB: the number of commitments opened.
    pub open spec fn spec_num_openings(&self) -> nat {
        (self.spec_M() - self.spec_NB()) as nat
    }

    /// The proportion lies in (0, 1], a bucket is not empty, and M fits the machine.
    pub open spec fn wf(&self) -> bool {
        &&& 1 <= self.closed_proportion <= 1000
        &&& 1 <= self.bucket_size
        &&& self.spec_M() <= usize::MAX
    }

    /// NB and ⌈NB / p⌉, in integers wide enough for every parameter.
    fn sizes(&self) -> (r: (u128, u128))
        requires
            1 <= self.closed_proportion <= 1000,
        ensures
            r.0 == self.spec_NB(),
            r.1 == self.spec_M(),
    {
        let n: u128 = self.n_encryptions as u128;
        let b: u128 = self.bucket_size as u128;
        assert(n * b <= 0xffff_ffff_ffff_ffff * 255) by (nonlinear_arith)
            requires
                n <= 0xffff_ffff_ffff_ffff,
                b <= 255,
        ;
        let nb: u128 = n * b;
        let p: u128 = self.closed_proportion as u128;
        let m: u128 = (nb * 1000 + (p - 1)) / p;
        (nb, m)
    }

    /// Whether the parameters are well formed.
    pub fn is_valid(&self) -> (ok: bool)
        ensures
            ok == self.wf(),
    {
        if self.closed_proportion < 1 || self.closed_proportion > 1000 || self.bucket_size < 1 {
            return false;
        }
        let (_, m) = self.sizes();
        m <= usize::MAX as u128
    }

    /// M = ⌈NB / p⌉: the number of commitments made.
    pub fn M(&self) -> (m: usize)
        requires
            self.wf(),
        ensures
            m == self.spec_M(),
    {
        let (_, m) = self.sizes();
        m as usize
    }

    /// NB: the number of commitments that stay closed.
    pub fn NB(&self) -> (nb: usize)
        requires
            self.wf(),
        ensures
            nb == self.spec_NB(),
    {
        proof {
            lemma_params_round_trip(*self);
        }
        let (nb, _) = self.sizes();
        nb as usize
    }

    /// M − NB: the number of commitments opened.
    pub fn num_openings(&self) -> (n: usize)
        requires
            self.wf(),
        ensures
            n == self.spec_num_openings(),
    {
        proof {
            lemma_params_round_trip(*self);
        }
        self.M() - self.NB()
    }
}

/// The derived sizes fit together: NB is B for each of the encryptions, M is
/// the least number with M · p ≥ NB, and the openings and the closed
/// commitments make up all M.
pub proof fn lemma_params_round_trip(params: Params)
    requires
        params.wf(),
    ensures
        params.spec_NB() == params.bucket_size * params.n_encryptions,
        params.spec_M() * params.closed_proportion >= params.spec_NB() * 1000,
        (params.spec_M() - 1) * params.closed_proportion < params.spec_NB() * 1000,
        params.spec_NB() <= params.spec_M(),
        params.spec_num_openings() + params.spec_NB() == params.spec_M(),
{
    let nb = params.spec_NB();
    let p = params.closed_proportion as int;
    let m = params.spec_M() as int;
    assert(params.spec_NB() == params.bucket_size * params.n_encryptions) by (nonlinear_arith)
        requires
            params.spec_NB() == (params.n_encryptions * params.bucket_size) as nat,
    ;
    let num = nb * 1000 + p - 1;
    assert(m == num / p);
    vstd::arithmetic::div_mod::lemma_fundamental_div_mod(num, p);
    vstd::arithmetic::div_mod::lemma_mod_bound(num, p);
    assert(num == p * m + num % p);
    assert(p * m == m * p) by (nonlinear_arith);
    assert((m - 1) * p == m * p - p) by (nonlinear_arith);
    assert(m * p >= nb * 1000);
    assert(nb <= m) by (nonlinear_arith)
        requires
            m * p >= nb * 1000,
            1 <= p <= 1000,
            0 <= nb,
    ;
}

/// A closed proportion, in thousandths, with the bucket size that reaches
/// the security level at that proportion.
#[derive(Clone, Copy, Debug, PartialEq, Eq, Structural)]
pub struct Candidate {
    pub closed_proportion: u16,
    pub bucket_size: u8,
}

/// The proportion p is one of 0.500, 0.501, …, 0.998 and leaves N ≥ 1/(1 − p).
pub open spec fn admissible(n: nat, candidate: Candidate) -> bool {
    &&& 500 <= candidate.closed_proportion < 999
    &&& n * (1000 - candidate.closed_proportion) >= 1000
}

/// The cost ⌈B · N / p⌉ of a candidate: the number of commitments it asks for.
pub open spec fn cost(n: nat, candidate: Candidate) -> nat {
    ceil_div(candidate.bucket_size as nat * n * 1000, candidate.closed_proportion as nat)
}

/// Candidate `i` is admissible, no admissible candidate is cheaper, and
/// those before it cost more.
pub open spec fn is_cheapest(candidates: Seq<Candidate>, n: nat, i: int) -> bool {
    &&& 0 <= i < candidates.len()
    &&& admissible(n, candidates[i])
    &&& forall|j: int|
        0 <= j < candidates.len() && admissible(n, #[trigger] candidates[j]) ==> cost(
            n,
            candidates[i],
        ) <= cost(n, candidates[j])
    &&& forall|j: int|
        0 <= j < i && admissible(n, #[trigger] candidates[j]) ==> cost(n, candidates[i]) < cost(
            n,
            candidates[j],
        )
}

/// Whether a candidate is admissible for N encryptions, and its cost.
fn weigh(n: usize, candidate: &Candidate) -> (r: (bool, u128))
    ensures
        r.0 == admissible(n as nat, *candidate),
        r.0 ==> r.1 == cost(n as nat, *candidate),
{
    let p = candidate.closed_proportion;
    if p < 500 || p >= 999 {
        return (false, 0);
    }
    let n_wide: u128 = n as u128;
    let rest: u128 = (1000 - p) as u128;
    assert(n_wide * rest <= 0xffff_ffff_ffff_ffff * 500) by (nonlinear_arith)
        requires
            n_wide <= 0xffff_ffff_ffff_ffff,
            rest <= 500,
    ;
    if n_wide * rest < 1000 {
        return (false, 0);
    }
    let b: u128 = candidate.bucket_size as u128;
    assert(b * n_wide <= 255 * 0xffff_ffff_ffff_ffff) by (nonlinear_arith)
        requires
            n_wide <= 0xffff_ffff_ffff_ffff,
            b <= 255,
    ;
    let p_wide: u128 = p as u128;
    (true, (b * n_wide * 1000 + (p_wide - 1)) / p_wide)
}

/// The cheapest parameters for N encryptions: for N = 1 the proportion 0.5
/// with a bucket as large as the security parameter; else, of the
/// candidates that are admissible, the first of those that cost least, or
/// nothing where no candidate is admissible. The result is the closed
/// proportion, in thousandths, and the bucket size.
pub fn compute_optimal_params(
    security_param: u8,
    n_encryptions: usize,
    candidates: &[Candidate],
) -> (r: Option<(u16, u8)>)
    ensures
        n_encryptions == 1 ==> r == Some((500u16, security_param)),
        n_encryptions != 1 ==> match r {
            Some((p, b)) => exists|i: int|
                is_cheapest(candidates@, n_encryptions as nat, i) && (#[trigger] candidates@[i])
                    == (Candidate { closed_proportion: p, bucket_size: b }),
            None => forall|j: int|
                0 <= j < candidates@.len() ==> !admissible(
                    n_encryptions as nat,
                    #[trigger] candidates@[j],
                ),
        },
{
    if n_encryptions == 1 {
        return Some((500, security_param));
    }
    let mut best: Option<(usize, u128)> = None;
    let mut j: usize = 0;
    while j < candidates.len()
        invariant
            j <= candidates@.len(),
            match best {
                Some((i, least)) => {
                    &&& i < j
                    &&& admissible(n_encryptions as nat, candidates@[i as int])
                    &&& least == cost(n_encryptions as nat, candidates@[i as int])
                    &&& forall|t: int|
                        0 <= t < j && admissible(n_encryptions as nat, #[trigger] candidates@[t])
                            ==> least <= cost(n_encryptions as nat, candidates@[t])
                    &&& forall|t: int|
                        0 <= t < i && admissible(n_encryptions as nat, #[trigger] candidates@[t])
                            ==> least < cost(n_encryptions as nat, candidates@[t])
                },
                None => forall|t: int|
                    0 <= t < j ==> !admissible(n_encryptions as nat, #[trigger] candidates@[t]),
            },
        decreases candidates@.len() - j,
    {
        let (ok, score) = weigh(n_encryptions, &candidates[j]);
        if ok {
            match best {
                Some((_, least)) => {
                    if score < least {
                        best = Some((j, score));
                    }
                },
                None => {
                    best = Some((j, score));
                },
            }
        }
        j += 1;
    }
    match best {
        Some((i, _)) => {
            assert(is_cheapest(candidates@, n_encryptions as nat, i as int));
            Some((candidates[i].closed_proportion, candidates[i].bucket_size))
        },
        None => None,
    }
}

/// The SHA-256 digest of a byte string.
pub uninterp spec fn sha256(data: Seq<u8>) -> Seq<u8>;

/// The bytewise exclusive or of the first 32 bytes of two strings.
pub open spec fn xor_bytes(a: Seq<u8>, b: Seq<u8>) -> Seq<u8> {
    Seq::new(32, |i: int| a[i] ^ b[i])
}

/// The pad that covers the encoding of a scalar under a point: the hash of
/// the point's encoding, xored with the scalar's.
pub open spec fn pad_of(point: Seq<u8>, scalar: Seq<u8>) -> Seq<u8> {
    xor_bytes(sha256(point), scalar)
}

/// The scalar that a pad uncovers under a point: the hash of the point's
/// encoding, xored with the pad, read as a number and reduced modulo q.
pub open spec fn unpad(point: Seq<u8>, pad: Seq<u8>) -> nat {
    le_value(xor_bytes(sha256(point), pad)) % group_order()
}

/// Uncovering undoes covering: under whatever point a scalar was covered,
/// the pad gives the scalar back.
pub proof fn lemma_pad_round_trip(point: Seq<u8>, scalar: Scalar)
    requires
        scalar.wf(),
    ensures
        unpad(point, pad_of(point, scalar.encoding())) == scalar@,
{
    let h = sha256(point);
    let e = scalar.encoding();
    let back = xor_bytes(h, xor_bytes(h, e));
    assert forall|i: int| 0 <= i < 32 implies back[i] == e[i] by {
        let x = h[i];
        let y = e[i];
        assert(x ^ (x ^ y) == y) by (bit_vector);
    }
    assert(back =~= e);
    vstd::arithmetic::div_mod::lemma_small_mod(scalar@, group_order());
}

/// The bytewise exclusive or of two arrays.
fn xor32(a: &[u8; 32], b: &[u8; 32]) -> (r: [u8; 32])
    ensures
        r@ == xor_bytes(a@, b@),
{
    let mut out = [0u8; 32];
    let mut i: usize = 0;
    while i < 32
        invariant
            i <= 32,
            forall|j: int| 0 <= j < i ==> out@[j] == a@[j] ^ b@[j],
        decreases 32 - i,
    {
        out[i] = a[i] ^ b[i];
        i += 1;
    }
    assert(out@ =~= xor_bytes(a@, b@));
    out
}

/// The pad that covers a scalar under a given point.
pub fn pad_for(point: &Point, ri: &Scalar) -> (pad: [u8; 32])
    ensures
        pad@ == pad_of(point@, ri.encoding()),
        unpad(point@, pad@) == ri@,
{
    proof {
        use_type_invariant(ri);
        lemma_pad_round_trip(point@, *ri);
    }
    let hashed = sha256_digest(&point.to_bytes());
    xor32(&hashed, &ri.to_bytes())
}

/// Maps a scalar into the group: a fresh random point together with the pad
/// that covers the scalar under it.
pub fn map_Zq_to_G(ri: &Scalar) -> (r: (Point, [u8; 32]))
    ensures
        r.0.wf(),
        r.1@ == pad_of(r.0@, ri.encoding()),
        unpad(r.0@, r.1@) == ri@,
{
    let point = Point::random();
    let pad = pad_for(&point, ri);
    (point, pad)
}

/// Maps a point and a pad back to the scalar that the pad covers under the point.
pub fn map_G_to_Zq(point: Point, pad: [u8; 32]) -> (ri: Scalar)
    ensures
        ri.wf(),
        ri@ == unpad(point@, pad@),
{
    let hashed = sha256_digest(&point.to_bytes());
    Scalar::from_bytes_mod_order(xor32(&hashed, &pad))
}

/// `Sha256::default().chain(data).finalize()` of sha2: the SHA-256 digest of
/// the 32 bytes.
#[verifier::external_body]
fn sha256_digest(data: &[u8; 32]) -> (digest: [u8; 32])
    ensures
        digest@ == sha256(data@),
{
    sha2::Digest::finalize(sha2::Digest::chain(<sha2::Sha256 as Default>::default(), data)).into()
}

} // verus!
