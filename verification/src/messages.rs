//! The three messages of a session.
use vstd::prelude::*;
use vstd::std_specs::iter::IteratorSpec;
use std::collections::BTreeSet;
use crate::common::{unpad, Params};
use crate::dleq::Proof;
use crate::group::{base_mul, ristretto_add, ristretto_mul, Point, Scalar};

verus! {

/// The sender's first message: one commitment for each of the M pads.
#[derive(Debug, Clone)]
pub struct Message1 {
    pub commits: Vec<Commit>,
}

/// A commitment to a one-time pad r: the ElGamal pair C = (r′·g, r′·h + P),
/// the image R = r·g, and the pad that covers r under the point P.
#[derive(Debug, Clone, Copy)]
pub struct Commit {
    pub C: (Point, Point),
    pub R: Point,
    pub pad: [u8; 32],
}

/// The receiver's challenge: the commitments to open, and for each bucket
/// slot the closed commitment that goes into it.
#[derive(Debug, Clone)]
pub struct Message2 {
    pub bucket_mapping: Vec<usize>,
    pub openings: BTreeSet<usize>,
}

/// The sender's response: the openings asked for, in ascending order of the
/// commitments' indices, one encryption for each bucket slot, and the proof
/// that the encryptions agree with the commitments.
#[derive(Clone)]
pub struct Message3 {
    pub proof: Proof,
    pub encryptions: Vec<(Point, Scalar)>,
    pub openings: Vec<Scalar>,
}

impl Commit {
    /// The commitment is the one to the pad r with the blinding r′ and the
    /// point P under the base h: C₀ = r′·g, C₁ = r′·h + P, R = r·g, and the
    /// pad uncovers r under P.
    pub open spec fn made_of(&self, r: nat, r_prime: nat, mapped: Seq<u8>, h: Seq<u8>) -> bool {
        &&& self.C.0@ == base_mul(r_prime)
        &&& self.C.1@ == ristretto_add(ristretto_mul(r_prime, h), mapped)
        &&& self.R@ == base_mul(r)
        &&& unpad(mapped, self.pad@) == r
    }

    /// The commitment is the one made of the secret (r, r′, P) under the base h.
    pub open spec fn made_from(&self, secret: (Scalar, Scalar, Point), h: Seq<u8>) -> bool {
        self.made_of(secret.0@, secret.1@, secret.2@, h)
    }
}

impl Message2 {
    /// The challenge is one that a receiver makes for these parameters: the
    /// mapping is a permutation of the NB bucket slots, and the openings are
    /// M − NB of the M commitments.
    pub open spec fn wf(&self, params: &Params) -> bool {
        &&& self.bucket_mapping@.len() == params.spec_NB()
        &&& self.bucket_mapping@.no_duplicates()
        &&& forall|k: int|
            0 <= k < self.bucket_mapping@.len() ==> (#[trigger] self.bucket_mapping@[k])
                < params.spec_NB()
        &&& self.openings@.finite()
        &&& self.openings@.len() == params.spec_num_openings()
        &&& forall|i: usize| self.openings@.contains(i) ==> i < params.spec_M()
    }
}

/// The indices below `n` that a challenge opens, in ascending order.
pub open spec fn opened_indices(n: nat, openings: Set<usize>) -> Seq<usize>
    decreases n,
{
    if n == 0 {
        Seq::empty()
    } else if openings.contains((n - 1) as usize) {
        opened_indices((n - 1) as nat, openings).push((n - 1) as usize)
    } else {
        opened_indices((n - 1) as nat, openings)
    }
}

/// The indices below `n` that a challenge leaves closed, in ascending order.
pub open spec fn closed_indices(n: nat, openings: Set<usize>) -> Seq<usize>
    decreases n,
{
    if n == 0 {
        Seq::empty()
    } else if openings.contains((n - 1) as usize) {
        closed_indices((n - 1) as nat, openings)
    } else {
        closed_indices((n - 1) as nat, openings).push((n - 1) as usize)
    }
}

/// Every index below `n` is either opened or left closed, and both lists
/// hold indices below `n` only.
pub proof fn lemma_partition(n: nat, openings: Set<usize>)
    requires
        n <= usize::MAX,
    ensures
        opened_indices(n, openings).len() + closed_indices(n, openings).len() == n,
        forall|j: int|
            0 <= j < opened_indices(n, openings).len() ==> (#[trigger] opened_indices(
                n,
                openings,
            )[j]) < n && openings.contains(opened_indices(n, openings)[j]),
        forall|j: int|
            0 <= j < closed_indices(n, openings).len() ==> (#[trigger] closed_indices(
                n,
                openings,
            )[j]) < n && !openings.contains(closed_indices(n, openings)[j]),
    decreases n,
{
    if n > 0 {
        lemma_partition((n - 1) as nat, openings);
    }
}

/// Only the openings below `n` matter for the indices below `n`.
proof fn lemma_opened_ignores(n: nat, openings: Set<usize>, other: usize)
    requires
        n <= other,
    ensures
        opened_indices(n, openings.remove(other)) == opened_indices(n, openings),
    decreases n,
{
    if n > 0 {
        lemma_opened_ignores((n - 1) as nat, openings, other);
    }
}

/// No more indices are opened than the challenge names; and as many, where
/// it names indices below `n` only.
pub proof fn lemma_opened_count(n: nat, openings: Set<usize>)
    requires
        n <= usize::MAX,
        openings.finite(),
    ensures
        opened_indices(n, openings).len() <= openings.len(),
        (forall|i: usize| openings.contains(i) ==> i < n) ==> opened_indices(n, openings).len()
            == openings.len(),
    decreases n,
{
    if n == 0 {
        if forall|i: usize| openings.contains(i) ==> i < n {
            assert(openings =~= Set::empty());
        }
    } else {
        let last = (n - 1) as usize;
        if openings.contains(last) {
            let rest = openings.remove(last);
            lemma_opened_count((n - 1) as nat, rest);
            lemma_opened_ignores((n - 1) as nat, openings, last);
            if forall|i: usize| openings.contains(i) ==> i < n {
                assert(forall|i: usize| rest.contains(i) ==> i < n - 1);
            }
        } else {
            lemma_opened_count((n - 1) as nat, openings);
            if forall|i: usize| openings.contains(i) ==> i < n {
                assert(forall|i: usize| openings.contains(i) ==> i < n - 1);
            }
        }
    }
}

/// A set held in a `BTreeSet` is finite.
pub proof fn lemma_openings_finite(openings: &BTreeSet<usize>)
    ensures
        openings@.finite(),
{
    vstd::std_specs::btree::axiom_spec_btree_keys_iter(openings);
    let keys = vstd::std_specs::btree::spec_btree_keys_iter(openings).remaining().unref();
    vstd::seq_lib::seq_to_set_is_finite(keys);
}

/// Whether the challenge opens the commitment with the given index.
pub fn is_opened(openings: &BTreeSet<usize>, index: usize) -> (opened: bool)
    ensures
        opened == openings@.contains(index),
{
    broadcast use vstd::std_specs::btree::group_btree_axioms;
    broadcast use vstd::laws_cmp::group_laws_cmp;

    openings.contains(&index)
}

/// The number of commitments that the challenge names for opening.
pub fn count_openings(openings: &BTreeSet<usize>) -> (count: usize)
    ensures
        count == openings@.len(),
        openings@.finite(),
{
    broadcast use vstd::std_specs::btree::group_btree_axioms;
    broadcast use vstd::laws_cmp::group_laws_cmp;

    proof {
        lemma_openings_finite(openings);
    }
    openings.len()
}

/// Names one more commitment for opening.
pub fn insert_opening(openings: &mut BTreeSet<usize>, index: usize)
    ensures
        final(openings)@ == old(openings)@.insert(index),
{
    broadcast use vstd::std_specs::btree::group_btree_axioms;
    broadcast use vstd::laws_cmp::group_laws_cmp;

    openings.insert(index);
}

/// Splits the indices below `n` into those that the challenge opens and
/// those that it leaves closed, each in ascending order.
pub fn partition(n: usize, openings: &BTreeSet<usize>) -> (r: (Vec<usize>, Vec<usize>))
    ensures
        r.0@ == opened_indices(n as nat, openings@),
        r.1@ == closed_indices(n as nat, openings@),
{
    let mut opened: Vec<usize> = Vec::new();
    let mut closed: Vec<usize> = Vec::new();
    let mut i: usize = 0;
    while i < n
        invariant
            i <= n,
            opened@ == opened_indices(i as nat, openings@),
            closed@ == closed_indices(i as nat, openings@),
        decreases n - i,
    {
        if is_opened(openings, i) {
            opened.push(i);
        } else {
            closed.push(i);
        }
        i += 1;
    }
    (opened, closed)
}

} // verus!
