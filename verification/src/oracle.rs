//! The oracle whose attestation is anticipated: a signer with a public key
//! and one public nonce for each bit of the outcome.
use vstd::prelude::*;
use vstd::arithmetic::power2::pow2;
use crate::group::{base_mul, group_order, Point, Scalar};

verus! {

/// A signer that attests to an outcome bit by bit.
pub struct Oracle {
    sk: Scalar,
    pk: Point,
    nsk: Vec<Scalar>,
    npk: Vec<Point>,
}

/// Bit `position` of the outcome, the least significant bit at position 0.
pub open spec fn bit_of(outcome_index: u32, position: nat) -> nat {
    if position < 32 {
        ((outcome_index >> (position as u32)) & 1) as nat
    } else {
        0
    }
}

/// The attestation σ = nsk·(v + 1) + sk under the secret nonce nsk and the
/// secret key sk, in Z_q, where v is the value of a bit or the index of an
/// outcome.
pub open spec fn attestation(sk: nat, nsk: nat, index: nat) -> nat {
    ((index + 1) * nsk + sk) % group_order()
}

/// The number of bits that tell `n` outcomes apart: the least k with n ≤ 2^k.
pub open spec fn is_bit_count(n: nat, k: nat) -> bool {
    &&& n <= pow2(k)
    &&& k > 0 ==> pow2((k - 1) as nat) < n
}

/// The least k with n ≤ 2^k.
pub fn bit_count(n: u32) -> (k: usize)
    ensures
        is_bit_count(n as nat, k as nat),
        k <= 32,
{
    let mut k: usize = 0;
    let mut reach: u64 = 1;
    proof {
        vstd::arithmetic::power2::lemma2_to64();
    }
    while reach < n as u64
        invariant
            k <= 32,
            reach == pow2(k as nat),
            k > 0 ==> pow2((k - 1) as nat) < n,
            reach <= 0x1_0000_0000,
        decreases 0x2_0000_0000 - reach,
    {
        proof {
            vstd::arithmetic::power2::lemma2_to64();
            vstd::arithmetic::power2::lemma_pow2_unfold((k + 1) as nat);
            if k >= 32 {
                vstd::arithmetic::power2::lemma_pow2_strictly_increases(32, k as nat);
            }
        }
        reach = reach * 2;
        k += 1;
    }
    k
}

impl Oracle {
    /// The secret key.
    pub closed spec fn secret_key(&self) -> Scalar {
        self.sk
    }

    /// The secret nonces, one for each bit of the outcome.
    pub closed spec fn secret_nonces(&self) -> Seq<Scalar> {
        self.nsk@
    }

    /// The public key.
    pub closed spec fn spec_public_key(&self) -> Point {
        self.pk
    }

    /// The public nonces.
    pub closed spec fn public_nonces(&self) -> Seq<Point> {
        self.npk@
    }

    /// The public key and the public nonces are the images of the secret ones.
    #[verifier::type_invariant]
    pub open spec fn wf(&self) -> bool {
        &&& self.spec_public_key()@ == base_mul(self.secret_key()@)
        &&& self.public_nonces().len() == self.secret_nonces().len()
        &&& forall|i: int|
            0 <= i < self.secret_nonces().len() ==> (#[trigger] self.public_nonces()[i])@
                == base_mul(self.secret_nonces()[i]@)
    }

    /// An oracle with a random key and as many random nonces as `n_outcomes`
    /// outcomes have bits, drawn from the generator.
    pub fn random(n_outcomes: u32, rng: &mut rand::rngs::StdRng) -> (oracle: Oracle)
        ensures
            oracle.wf(),
            is_bit_count(n_outcomes as nat, oracle.secret_nonces().len()),
    {
        let n_nonces = bit_count(n_outcomes);
        let mut nsk: Vec<Scalar> = Vec::new();
        let mut i: usize = 0;
        while i < n_nonces
            invariant
                i <= n_nonces,
                nsk@.len() == i,
            decreases n_nonces - i,
        {
            nsk.push(Scalar::random_with(rng));
            i += 1;
        }
        let sk = Scalar::random_with(rng);
        Oracle::new(sk, nsk)
    }

    /// The oracle with the given secret key and secret nonces.
    pub fn new(sk: Scalar, nsk: Vec<Scalar>) -> (oracle: Oracle)
        ensures
            oracle.wf(),
            oracle.secret_key() == sk,
            oracle.secret_nonces() == nsk@,
    {
        let pk = Point::base_mul(&sk);
        let mut npk: Vec<Point> = Vec::new();
        let mut i: usize = 0;
        while i < nsk.len()
            invariant
                i <= nsk@.len(),
                npk@.len() == i,
                forall|j: int| 0 <= j < i ==> (#[trigger] npk@[j])@ == base_mul(nsk@[j]@),
            decreases nsk@.len() - i,
        {
            npk.push(Point::base_mul(&nsk[i]));
            i += 1;
        }
        Oracle { sk, pk, nsk, npk }
    }

    /// The public key sk·g.
    pub fn public_key(&self) -> (pk: Point)
        ensures
            pk == self.spec_public_key(),
            pk@ == base_mul(self.secret_key()@),
    {
        proof {
            use_type_invariant(self);
        }
        self.pk
    }

    /// The public nonces nsk·g, one for each bit of the outcome.
    pub fn public_nonce(&self) -> (npk: &[Point])
        ensures
            npk@ == self.public_nonces(),
            npk@.len() == self.secret_nonces().len(),
            forall|i: int|
                0 <= i < npk@.len() ==> (#[trigger] npk@[i])@ == base_mul(
                    self.secret_nonces()[i]@,
                ),
    {
        proof {
            use_type_invariant(self);
        }
        self.npk.as_slice()
    }

    /// Attests to an outcome by its index i, with the first nonce: the
    /// scalar nsk·(i + 1) + sk. An oracle without a nonce attests nothing.
    pub fn attest_outcome(&self, outcome_index: u32) -> (attested: Option<Scalar>)
        ensures
            attested.is_some() <==> self.secret_nonces().len() > 0,
            attested.is_some() ==> attested.unwrap()@ == attestation(
                self.secret_key()@,
                self.secret_nonces()[0]@,
                outcome_index as nat,
            ),
    {
        if self.nsk.len() == 0 {
            return None;
        }
        let nonce_coef = Scalar::from_u64(outcome_index as u64 + 1);
        let attested = nonce_coef.mul(&self.nsk[0]).add(&self.sk);
        proof {
            use_type_invariant(&self.sk);
            vstd::arithmetic::div_mod::lemma_add_mod_noop(
                (outcome_index + 1) * self.nsk@[0]@,
                self.sk@ as int,
                group_order() as int,
            );
            vstd::arithmetic::div_mod::lemma_small_mod(self.sk@, group_order());
        }
        Some(attested)
    }

    /// Attests to an outcome: for each bit position b, with the bit value v
    /// of the outcome there, the scalar nsk_b·(v + 1) + sk.
    pub fn attest(&self, outcome_index: u32) -> (attestations: Vec<Scalar>)
        ensures
            attestations@.len() == self.secret_nonces().len(),
            forall|b: int|
                0 <= b < attestations@.len() ==> (#[trigger] attestations@[b])@ == attestation(
                    self.secret_key()@,
                    self.secret_nonces()[b]@,
                    bit_of(outcome_index, b as nat),
                ),
    {
        let mut attestations: Vec<Scalar> = Vec::new();
        let mut bit_index: usize = 0;
        while bit_index < self.nsk.len()
            invariant
                bit_index <= self.nsk@.len(),
                attestations@.len() == bit_index,
                forall|b: int|
                    0 <= b < bit_index ==> (#[trigger] attestations@[b])@ == attestation(
                        self.sk@,
                        self.nsk@[b]@,
                        bit_of(outcome_index, b as nat),
                    ),
            decreases self.nsk@.len() - bit_index,
        {
            let bit_value: u32 = if bit_index < 32 {
                (outcome_index >> (bit_index as u32)) & 1
            } else {
                0
            };
            assert(bit_value <= 1) by (bit_vector)
                requires
                    bit_value == (outcome_index >> (bit_index as u32)) & 1 || bit_value == 0,
            ;
            let nonce_coef = Scalar::from_u32(bit_value + 1);
            let attested = nonce_coef.mul(&self.nsk[bit_index]).add(&self.sk);
            proof {
                use_type_invariant(&self.sk);
                vstd::arithmetic::div_mod::lemma_add_mod_noop(
                    (bit_value + 1) * self.nsk@[bit_index as int]@,
                    self.sk@ as int,
                    group_order() as int,
                );
                vstd::arithmetic::div_mod::lemma_small_mod(self.sk@, group_order());
            }
            attestations.push(attested);
            bit_index += 1;
        }
        attestations
    }
}

} // verus!
