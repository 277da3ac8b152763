//! The batched proof that every ciphertext encrypts what its commitment holds:
//! for each bucket slot, one witness w with C₀ = w·g and enc − C₁ = w·(K − h).
//!
//! The proof system is that of the `zkp` crate. A prover or verifier is
//! given variables and constraints one by one and is then consumed for the
//! proof or the verdict. Each call into `zkp` stands in a function of its
//! own at the end of this file, whose contract is believed, not proved.
use vstd::prelude::*;
use vstd::string::StringSliceAdditionalSpecFns;
use crate::group::{
    generator_encoding, group_order, le_value, ristretto_decodes, ristretto_sub, Point, Scalar,
};
use curve25519_dalek_ng::ristretto::CompressedRistretto;
use curve25519_dalek_ng::scalar;
use zkp::toolbox::prover::Prover;
use zkp::toolbox::verifier::Verifier;
use zkp::toolbox::SchnorrCS;
use zkp::Transcript;

verus! {

/// `Transcript` of merlin, as zkp hands it on: the running hash of a proof.
/// Nothing is known of what it holds.
#[verifier::external_type_specification]
#[verifier::external_body]
pub struct ExTranscript(Transcript);

/// `Prover` of zkp: it holds secret scalars, labelled points and
/// constraints between them, on a transcript.
#[verifier::external_type_specification]
#[verifier::external_body]
pub struct ExProver<'a>(Prover<'a>);

/// `Verifier` of zkp: it holds a number of scalar variables, labelled
/// points and constraints between them, on a transcript.
#[verifier::external_type_specification]
#[verifier::external_body]
pub struct ExVerifier<'a>(Verifier<'a>);

/// `BatchableProof` of zkp: a proof, carried from the sender to the
/// receiver. Nothing is known of what it holds.
#[verifier::external_type_specification]
#[verifier::external_body]
pub struct ExBatchableProof(zkp::BatchableProof);

/// `ScalarVar` of zkp's prover: the handle of a scalar that a prover holds.
#[verifier::external_type_specification]
#[verifier::external_body]
pub struct ExProverScalarVar(zkp::toolbox::prover::ScalarVar);

/// `PointVar` of zkp's prover: the handle of a point that a prover holds.
#[verifier::external_type_specification]
#[verifier::external_body]
pub struct ExProverPointVar(zkp::toolbox::prover::PointVar);

/// `ScalarVar` of zkp's verifier: the handle of a scalar variable of a verifier.
#[verifier::external_type_specification]
#[verifier::external_body]
pub struct ExVerifierScalarVar(zkp::toolbox::verifier::ScalarVar);

/// `PointVar` of zkp's verifier: the handle of a point that a verifier holds.
#[verifier::external_type_specification]
#[verifier::external_body]
pub struct ExVerifierPointVar(zkp::toolbox::verifier::PointVar);

/// A batched proof for all the statements of one message.
pub type Proof = zkp::BatchableProof;

/// `Clone` of zkp's `BatchableProof`: a copy of the proof.
pub assume_specification[ <zkp::BatchableProof as Clone>::clone ](
    proof: &zkp::BatchableProof,
) -> (copy: zkp::BatchableProof)
;

/// The secret scalars that a prover holds, in the order in which it got them.
pub uninterp spec fn prover_scalars(prover: Prover) -> Seq<nat>;

/// The points that a prover holds, each as its label and its encoding, in
/// the order in which it got them.
pub uninterp spec fn prover_points(prover: Prover) -> Seq<(Seq<u8>, Seq<u8>)>;

/// The constraints that a prover holds. An entry (l, s, r) gives three
/// places and claims: point l is scalar s times point r.
pub uninterp spec fn prover_constraints(prover: Prover) -> Seq<(nat, nat, nat)>;

/// The place, among a prover's scalars, of the scalar behind a handle.
pub uninterp spec fn prover_scalar_place(v: zkp::toolbox::prover::ScalarVar) -> nat;

/// The place, among a prover's points, of the point behind a handle.
pub uninterp spec fn prover_point_place(v: zkp::toolbox::prover::PointVar) -> nat;

/// The number of scalar variables that a verifier holds.
pub uninterp spec fn verifier_scalars(verifier: Verifier) -> nat;

/// The points that a verifier holds, each as its label and its encoding, in
/// the order in which it got them.
pub uninterp spec fn verifier_points(verifier: Verifier) -> Seq<(Seq<u8>, Seq<u8>)>;

/// The constraints that a verifier holds. An entry (l, s, r) gives three
/// places and claims: point l is scalar s times point r.
pub uninterp spec fn verifier_constraints(verifier: Verifier) -> Seq<(nat, nat, nat)>;

/// The place, among a verifier's scalar variables, of the one behind a handle.
pub uninterp spec fn verifier_scalar_place(v: zkp::toolbox::verifier::ScalarVar) -> nat;

/// The place, among a verifier's points, of the point behind a handle.
pub uninterp spec fn verifier_point_place(v: zkp::toolbox::verifier::PointVar) -> nat;

/// The statement that ties a ciphertext to its commitment (C₀, C₁) under the
/// key K and the commitment base h: over the points g, C₀, K − h and
/// enc − C₁.
pub open spec fn statement(
    ri_encryption: Seq<u8>,
    sig_point: Seq<u8>,
    commit_base: Seq<u8>,
    commit: (Seq<u8>, Seq<u8>),
) -> (Seq<u8>, Seq<u8>, Seq<u8>, Seq<u8>) {
    (
        generator_encoding(),
        commit.0,
        ristretto_sub(sig_point, commit_base),
        ristretto_sub(ri_encryption, commit.1),
    )
}

/// The encoding of the neutral element: 32 zero bytes.
pub open spec fn is_identity_encoding(point: Seq<u8>) -> bool {
    point == Seq::new(32, |i: int| 0u8)
}

/// Whether a verifier takes a statement: none of its points is the neutral element.
pub open spec fn admissible(statement: (Seq<u8>, Seq<u8>, Seq<u8>, Seq<u8>)) -> bool {
    &&& !is_identity_encoding(statement.0)
    &&& !is_identity_encoding(statement.1)
    &&& !is_identity_encoding(statement.2)
    &&& !is_identity_encoding(statement.3)
}

/// The tag that separates the transcripts of this protocol from others.
pub open spec fn domain_tag_bytes() -> Seq<u8> {
    "venc-dleqs".spec_bytes()
}

/// The labels under which the variables of a statement enter the
/// transcript, as bytes: `ri_prime` for the witness, then `0.0`, `0.1`,
/// `1.0` and `1.1` for the four points in their order.
pub open spec fn statement_labels() -> Seq<Seq<u8>> {
    seq![
        "ri_prime".spec_bytes(),
        "0.0".spec_bytes(),
        "0.1".spec_bytes(),
        "1.0".spec_bytes(),
        "1.1".spec_bytes(),
    ]
}

/// The given labels are those of a statement.
pub open spec fn are_statement_labels(l: [&'static [u8]; 5]) -> bool {
    forall|i: int| 0 <= i < 5 ==> (#[trigger] l@[i])@ == statement_labels()[i]
}

/// The four points of a statement, each under its label.
pub open spec fn statement_points(statement: (Seq<u8>, Seq<u8>, Seq<u8>, Seq<u8>)) -> Seq<
    (Seq<u8>, Seq<u8>),
> {
    seq![
        (statement_labels()[1], statement.0),
        (statement_labels()[2], statement.1),
        (statement_labels()[3], statement.2),
        (statement_labels()[4], statement.3),
    ]
}

/// The two constraints of a statement whose points stand at the places n,
/// …, n + 3 and whose witness stands at the place s: point n + 1 is the
/// witness times point n, and point n + 3 is the witness times point n + 2.
pub open spec fn statement_constraints(n: nat, s: nat) -> Seq<(nat, nat, nat)> {
    seq![(n + 1, s, n), (n + 3, s, n + 2)]
}

/// The points of a sequence of statements, statement by statement.
pub open spec fn batch_points(statements: Seq<(Seq<u8>, Seq<u8>, Seq<u8>, Seq<u8>)>) -> Seq<
    (Seq<u8>, Seq<u8>),
>
    decreases statements.len(),
{
    if statements.len() == 0 {
        Seq::empty()
    } else {
        batch_points(statements.drop_last()) + statement_points(statements.last())
    }
}

/// The constraints of `count` statements whose points start at the place n
/// and whose witnesses start at the place s.
pub open spec fn batch_constraints(n: nat, s: nat, count: nat) -> Seq<(nat, nat, nat)>
    decreases count,
{
    if count == 0 {
        Seq::empty()
    } else {
        batch_constraints(n, s, (count - 1) as nat) + statement_constraints(
            (n + 4 * (count - 1)) as nat,
            (s + count - 1) as nat,
        )
    }
}

/// Between the two states the prover got the statements with their
/// witnesses, in their order, and nothing else: one scalar, four labelled
/// points and two constraints for each.
pub open spec fn prover_took(
    before: Prover,
    after: Prover,
    witnesses: Seq<nat>,
    statements: Seq<(Seq<u8>, Seq<u8>, Seq<u8>, Seq<u8>)>,
) -> bool {
    &&& witnesses.len() == statements.len()
    &&& prover_scalars(after) == prover_scalars(before) + witnesses
    &&& prover_points(after) == prover_points(before) + batch_points(statements)
    &&& prover_constraints(after) == prover_constraints(before) + batch_constraints(
        prover_points(before).len(),
        prover_scalars(before).len(),
        statements.len(),
    )
}

/// Between the two states the verifier got the statements, in their order,
/// and nothing else: one scalar variable, four labelled points and two
/// constraints for each.
pub open spec fn verifier_took(
    before: Verifier,
    after: Verifier,
    statements: Seq<(Seq<u8>, Seq<u8>, Seq<u8>, Seq<u8>)>,
) -> bool {
    &&& verifier_scalars(after) == verifier_scalars(before) + statements.len()
    &&& verifier_points(after) == verifier_points(before) + batch_points(statements)
    &&& verifier_constraints(after) == verifier_constraints(before) + batch_constraints(
        verifier_points(before).len(),
        verifier_scalars(before),
        statements.len(),
    )
}

/// Each statement has four points.
pub proof fn lemma_batch_points_len(statements: Seq<(Seq<u8>, Seq<u8>, Seq<u8>, Seq<u8>)>)
    ensures
        batch_points(statements).len() == 4 * statements.len(),
    decreases statements.len(),
{
    if statements.len() > 0 {
        lemma_batch_points_len(statements.drop_last());
    }
}

/// One more statement after a batch makes the batch with that statement.
pub proof fn lemma_prover_took_one_more(
    before: Prover,
    middle: Prover,
    after: Prover,
    witnesses: Seq<nat>,
    statements: Seq<(Seq<u8>, Seq<u8>, Seq<u8>, Seq<u8>)>,
    witness: nat,
    statement: (Seq<u8>, Seq<u8>, Seq<u8>, Seq<u8>),
)
    requires
        prover_took(before, middle, witnesses, statements),
        prover_scalars(after) == prover_scalars(middle).push(witness),
        prover_points(after) == prover_points(middle) + statement_points(statement),
        prover_constraints(after) == prover_constraints(middle) + statement_constraints(
            prover_points(middle).len(),
            prover_scalars(middle).len(),
        ),
    ensures
        prover_took(before, after, witnesses.push(witness), statements.push(statement)),
{
    let more = statements.push(statement);
    assert(more.drop_last() =~= statements);
    lemma_batch_points_len(statements);
    assert(prover_scalars(after) =~= prover_scalars(before) + witnesses.push(witness));
    assert(prover_points(after) =~= prover_points(before) + batch_points(more));
    assert(prover_constraints(after) =~= prover_constraints(before) + batch_constraints(
        prover_points(before).len(),
        prover_scalars(before).len(),
        more.len(),
    ));
}

/// One more statement after a batch makes the batch with that statement.
pub proof fn lemma_verifier_took_one_more(
    before: Verifier,
    middle: Verifier,
    after: Verifier,
    statements: Seq<(Seq<u8>, Seq<u8>, Seq<u8>, Seq<u8>)>,
    statement: (Seq<u8>, Seq<u8>, Seq<u8>, Seq<u8>),
)
    requires
        verifier_took(before, middle, statements),
        verifier_scalars(after) == verifier_scalars(middle) + 1,
        verifier_points(after) == verifier_points(middle) + statement_points(statement),
        verifier_constraints(after) == verifier_constraints(middle) + statement_constraints(
            verifier_points(middle).len(),
            verifier_scalars(middle),
        ),
    ensures
        verifier_took(before, after, statements.push(statement)),
{
    let more = statements.push(statement);
    assert(more.drop_last() =~= statements);
    lemma_batch_points_len(statements);
    assert(verifier_points(after) =~= verifier_points(before) + batch_points(more));
    assert(verifier_constraints(after) =~= verifier_constraints(before) + batch_constraints(
        verifier_points(before).len(),
        verifier_scalars(before),
        more.len(),
    ));
}

/// The tag that separates the transcripts of this protocol from others.
pub fn domain_tag() -> (tag: &'static [u8])
    ensures
        tag@ == domain_tag_bytes(),
{
    "venc-dleqs".as_bytes()
}

/// The labels under which the witness and the four points of a statement
/// enter the transcript.
fn labels() -> (l: [&'static [u8]; 5])
    ensures
        are_statement_labels(l),
{
    ["ri_prime".as_bytes(), "0.0".as_bytes(), "0.1".as_bytes(), "1.0".as_bytes(), "1.1".as_bytes()]
}

/// Hands the prover the statement that `ri_encryption` encrypts under
/// `sig_point` what `commit` holds under `commit_base`, with the witness
/// `ri_prime`: the witness, then the points g, C₀, K − h and enc − C₁
/// under their labels, then the constraints that C₀ is the witness times g
/// and enc − C₁ the witness times K − h.
pub fn prove_eqaulity(
    prover: &mut Prover<'_>,
    ri_prime: Scalar,
    ri_encryption: Point,
    sig_point: Point,
    commit_base: Point,
    commit: (Point, Point),
)
    ensures
        prover_scalars(*final(prover)) == prover_scalars(*old(prover)).push(ri_prime@),
        prover_points(*final(prover)) == prover_points(*old(prover)) + statement_points(
            statement(ri_encryption@, sig_point@, commit_base@, (commit.0@, commit.1@)),
        ),
        prover_constraints(*final(prover)) == prover_constraints(*old(prover))
            + statement_constraints(
            prover_points(*old(prover)).len(),
            prover_scalars(*old(prover)).len(),
        ),
{
    let enc_sub = ri_encryption.sub(&commit.1);
    let sig_sub = sig_point.sub(&commit_base);
    let base = Point::generator();
    let l = labels();
    proof {
        use_type_invariant(&ri_prime);
        use_type_invariant(&enc_sub);
        use_type_invariant(&sig_sub);
        use_type_invariant(&base);
        use_type_invariant(&commit.0);
    }
    let witness = prover_allocate_scalar(prover, l[0], ri_prime.to_bytes());
    let p_0_0 = prover_allocate_point(prover, l[1], base.to_bytes());
    let p_0_1 = prover_allocate_point(prover, l[2], commit.0.to_bytes());
    let p_1_0 = prover_allocate_point(prover, l[3], sig_sub.to_bytes());
    let p_1_1 = prover_allocate_point(prover, l[4], enc_sub.to_bytes());
    prover_constrain(prover, &p_0_1, &witness, &p_0_0);
    prover_constrain(prover, &p_1_1, &witness, &p_1_0);
    proof {
        let s = statement(ri_encryption@, sig_point@, commit_base@, (commit.0@, commit.1@));
        assert(prover_points(*prover) =~= prover_points(*old(prover)) + statement_points(s));
        assert(prover_constraints(*prover) =~= prover_constraints(*old(prover))
            + statement_constraints(
            prover_points(*old(prover)).len(),
            prover_scalars(*old(prover)).len(),
        ));
    }
}

/// Hands the verifier the statement that `ri_encryption` encrypts under
/// `sig_point` what `commit` holds under `commit_base`: a scalar variable
/// for the witness, then the points g, C₀, K − h and enc − C₁ under their
/// labels, then the two constraints. The verifier refuses a point that is
/// the neutral element; the statement is then given up, and the result
/// says so.
pub fn verify_eqaulity(
    verifier: &mut Verifier<'_>,
    ri_encryption: Point,
    sig_point: Point,
    commit_base: Point,
    commit: (Point, Point),
) -> (taken: bool)
    ensures
        taken == admissible(
            statement(ri_encryption@, sig_point@, commit_base@, (commit.0@, commit.1@)),
        ),
        taken ==> {
            &&& verifier_scalars(*final(verifier)) == verifier_scalars(*old(verifier)) + 1
            &&& verifier_points(*final(verifier)) == verifier_points(*old(verifier))
                + statement_points(
                statement(ri_encryption@, sig_point@, commit_base@, (commit.0@, commit.1@)),
            )
            &&& verifier_constraints(*final(verifier)) == verifier_constraints(*old(verifier))
                + statement_constraints(
                verifier_points(*old(verifier)).len(),
                verifier_scalars(*old(verifier)),
            )
        },
{
    let enc_sub = ri_encryption.sub(&commit.1);
    let sig_sub = sig_point.sub(&commit_base);
    let base = Point::generator();
    let l = labels();
    let witness_var = verifier_allocate_scalar(verifier, l[0]);
    let p_0_0 = match verifier_allocate_point(verifier, l[1], base.to_bytes()) {
        Some(v) => v,
        None => {
            return false;
        },
    };
    let p_0_1 = match verifier_allocate_point(verifier, l[2], commit.0.to_bytes()) {
        Some(v) => v,
        None => {
            return false;
        },
    };
    let p_1_0 = match verifier_allocate_point(verifier, l[3], sig_sub.to_bytes()) {
        Some(v) => v,
        None => {
            return false;
        },
    };
    let p_1_1 = match verifier_allocate_point(verifier, l[4], enc_sub.to_bytes()) {
        Some(v) => v,
        None => {
            return false;
        },
    };
    verifier_constrain(verifier, &p_0_1, &witness_var, &p_0_0);
    verifier_constrain(verifier, &p_1_1, &witness_var, &p_1_0);
    proof {
        let s = statement(ri_encryption@, sig_point@, commit_base@, (commit.0@, commit.1@));
        assert(verifier_points(*verifier) =~= verifier_points(*old(verifier))
            + statement_points(s));
        assert(verifier_constraints(*verifier) =~= verifier_constraints(*old(verifier))
            + statement_constraints(
            verifier_points(*old(verifier)).len(),
            verifier_scalars(*old(verifier)),
        ));
    }
    true
}

/// `Transcript::new` of merlin, as zkp hands it on: a transcript that starts
/// with the tag.
#[verifier::external_body]
pub(crate) fn transcript_new(label: &'static [u8]) -> (transcript: Transcript)
    requires
        label@ == domain_tag_bytes(),
{
    Transcript::new(label)
}

/// `Prover::new` of zkp: a prover on the transcript, under the tag, that
/// holds nothing yet.
#[verifier::external_body]
pub(crate) fn prover_new<'a>(label: &'static [u8], transcript: &'a mut Transcript) -> (prover:
    Prover<'a>)
    requires
        label@ == domain_tag_bytes(),
    ensures
        prover_scalars(prover).len() == 0,
        prover_points(prover).len() == 0,
        prover_constraints(prover).len() == 0,
{
    Prover::new(label, transcript)
}

/// `Prover::allocate_scalar` of zkp: the prover holds one more scalar, and
/// the handle stands for the place it got.
#[verifier::external_body]
fn prover_allocate_scalar(prover: &mut Prover<'_>, label: &'static [u8], w: [u8; 32]) -> (v:
    zkp::toolbox::prover::ScalarVar)
    requires
        label@ == statement_labels()[0],
        le_value(w@) < group_order(),
    ensures
        prover_scalars(*final(prover)) == prover_scalars(*old(prover)).push(le_value(w@)),
        prover_points(*final(prover)) == prover_points(*old(prover)),
        prover_constraints(*final(prover)) == prover_constraints(*old(prover)),
        prover_scalar_place(v) == prover_scalars(*old(prover)).len(),
{
    prover.allocate_scalar(label, scalar::Scalar::from_bits(w))
}

/// `Prover::allocate_point` of zkp: the prover holds one more point under
/// the label, and the handle stands for the place it got.
#[verifier::external_body]
fn prover_allocate_point(prover: &mut Prover<'_>, label: &'static [u8], p: [u8; 32]) -> (v:
    zkp::toolbox::prover::PointVar)
    requires
        ristretto_decodes(p@),
    ensures
        prover_scalars(*final(prover)) == prover_scalars(*old(prover)),
        prover_points(*final(prover)) == prover_points(*old(prover)).push((label@, p@)),
        prover_constraints(*final(prover)) == prover_constraints(*old(prover)),
        prover_point_place(v) == prover_points(*old(prover)).len(),
{
    prover.allocate_point(label, CompressedRistretto(p).decompress().unwrap()).0
}

/// `SchnorrCS::constrain` of zkp's prover, with one term: the prover holds
/// one more constraint, that the left point is the scalar times the right point.
#[verifier::external_body]
fn prover_constrain(
    prover: &mut Prover<'_>,
    lhs: &zkp::toolbox::prover::PointVar,
    w: &zkp::toolbox::prover::ScalarVar,
    rhs: &zkp::toolbox::prover::PointVar,
)
    ensures
        prover_scalars(*final(prover)) == prover_scalars(*old(prover)),
        prover_points(*final(prover)) == prover_points(*old(prover)),
        prover_constraints(*final(prover)) == prover_constraints(*old(prover)).push(
            (prover_point_place(*lhs), prover_scalar_place(*w), prover_point_place(*rhs)),
        ),
{
    prover.constrain(*lhs, vec![(*w, *rhs)])
}

/// `Prover::prove_batchable` of zkp: a proof for what the prover holds. The
/// proof is blinded with fresh randomness, so nothing is promised of it.
#[verifier::external_body]
pub(crate) fn prover_finish(prover: Prover<'_>) -> (proof: Proof) {
    prover.prove_batchable()
}

/// `Verifier::new` of zkp: a verifier on the transcript, under the tag,
/// that holds nothing yet.
#[verifier::external_body]
pub(crate) fn verifier_new<'a>(label: &'static [u8], transcript: &'a mut Transcript) -> (verifier:
    Verifier<'a>)
    requires
        label@ == domain_tag_bytes(),
    ensures
        verifier_scalars(verifier) == 0,
        verifier_points(verifier).len() == 0,
        verifier_constraints(verifier).len() == 0,
{
    Verifier::new(label, transcript)
}

/// `Verifier::allocate_scalar` of zkp: the verifier holds one more scalar
/// variable, and the handle stands for the place it got.
#[verifier::external_body]
fn verifier_allocate_scalar(verifier: &mut Verifier<'_>, label: &'static [u8]) -> (v:
    zkp::toolbox::verifier::ScalarVar)
    requires
        label@ == statement_labels()[0],
    ensures
        verifier_scalars(*final(verifier)) == verifier_scalars(*old(verifier)) + 1,
        verifier_points(*final(verifier)) == verifier_points(*old(verifier)),
        verifier_constraints(*final(verifier)) == verifier_constraints(*old(verifier)),
        verifier_scalar_place(v) == verifier_scalars(*old(verifier)),
{
    verifier.allocate_scalar(label)
}

/// `Verifier::allocate_point` of zkp: unless the point is the neutral
/// element (32 zero bytes), the verifier holds one more point under the
/// label, and the handle stands for the place it got. The neutral element
/// is refused, and the verifier holds what it held.
#[verifier::external_body]
fn verifier_allocate_point(verifier: &mut Verifier<'_>, label: &'static [u8], p: [u8; 32]) -> (v:
    Option<zkp::toolbox::verifier::PointVar>)
    ensures
        v.is_some() == !is_identity_encoding(p@),
        verifier_scalars(*final(verifier)) == verifier_scalars(*old(verifier)),
        verifier_constraints(*final(verifier)) == verifier_constraints(*old(verifier)),
        v.is_some() ==> verifier_points(*final(verifier)) == verifier_points(
            *old(verifier),
        ).push((label@, p@)) && verifier_point_place(v.unwrap()) == verifier_points(
            *old(verifier),
        ).len(),
        v.is_none() ==> verifier_points(*final(verifier)) == verifier_points(*old(verifier)),
{
    verifier.allocate_point(label, CompressedRistretto(p)).ok()
}

/// `SchnorrCS::constrain` of zkp's verifier, with one term: the verifier
/// holds one more constraint, that the left point is the scalar times the
/// right point.
#[verifier::external_body]
fn verifier_constrain(
    verifier: &mut Verifier<'_>,
    lhs: &zkp::toolbox::verifier::PointVar,
    w: &zkp::toolbox::verifier::ScalarVar,
    rhs: &zkp::toolbox::verifier::PointVar,
)
    ensures
        verifier_scalars(*final(verifier)) == verifier_scalars(*old(verifier)),
        verifier_points(*final(verifier)) == verifier_points(*old(verifier)),
        verifier_constraints(*final(verifier)) == verifier_constraints(*old(verifier)).push(
            (verifier_point_place(*lhs), verifier_scalar_place(*w), verifier_point_place(*rhs)),
        ),
{
    verifier.constrain(*lhs, vec![(*w, *rhs)])
}

/// `Verifier::verify_batchable` of zkp: whether the proof is accepted for
/// what the verifier holds. The check weighs the constraints with random
/// factors drawn inside the call, so nothing is promised of the verdict.
#[verifier::external_body]
pub(crate) fn verifier_finish(verifier: Verifier<'_>, proof: &Proof) -> (accepted: bool) {
    verifier.verify_batchable(proof).is_ok()
}

} // verus!
