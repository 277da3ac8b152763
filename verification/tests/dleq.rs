use dlc_venc_adaptor::dleq::{prove_eqaulity, verify_eqaulity};
use dlc_venc_adaptor::group::{Point, Scalar};
use zkp::toolbox::prover::Prover;
use zkp::toolbox::verifier::Verifier;
use zkp::Transcript;

struct Slot {
    witness: Scalar,
    encryption: Point,
    key: Point,
    base: Point,
    commit: (Point, Point),
}

fn slot() -> Slot {
    let witness = Scalar::random();
    let key = Point::random();
    let base = Point::random();
    let mapped = Point::random();
    Slot {
        witness,
        encryption: key.mul(&witness).add(&mapped),
        key,
        base,
        commit: (Point::base_mul(&witness), base.mul(&witness).add(&mapped)),
    }
}

fn prove(slots: &[Slot]) -> zkp::BatchableProof {
    let mut transcript = Transcript::new(b"venc-dleqs");
    let mut prover = Prover::new(b"venc-dleqs", &mut transcript);
    for s in slots {
        prove_eqaulity(&mut prover, s.witness, s.encryption, s.key, s.base, s.commit);
    }
    prover.prove_batchable()
}

fn verify(slots: &[Slot], proof: &zkp::BatchableProof) -> bool {
    let mut transcript = Transcript::new(b"venc-dleqs");
    let mut verifier = Verifier::new(b"venc-dleqs", &mut transcript);
    for s in slots {
        assert!(verify_eqaulity(&mut verifier, s.encryption, s.key, s.base, s.commit));
    }
    verifier.verify_batchable(proof).is_ok()
}

#[test]
fn proof_of_true_statements_is_accepted() {
    let slots = [slot(), slot(), slot()];
    let proof = prove(&slots);
    assert_eq!(proof.responses.len(), 3);
    assert_eq!(proof.commitments.len(), 6);
    assert!(verify(&slots, &proof));
}

#[test]
fn proof_of_a_false_statement_is_not_accepted() {
    let mut slots = [slot(), slot()];
    slots[1].encryption = Point::random();
    let proof = prove(&slots);
    assert!(!verify(&slots, &proof));
}

#[test]
fn proof_is_bound_to_its_statements() {
    let mut slots = [slot(), slot()];
    let proof = prove(&slots);
    slots[0].key = Point::random();
    assert!(!verify(&slots, &proof));
    let slots = [slot(), slot()];
    let proof = prove(&slots);
    assert!(!verify(&slots[..1], &proof));
}

#[test]
fn statement_is_over_the_generator_and_the_differences() {
    let s = slot();
    let mut transcript = Transcript::new(b"venc-dleqs");
    let mut prover = Prover::new(b"venc-dleqs", &mut transcript);
    prove_eqaulity(&mut prover, s.witness, s.encryption, s.key, s.base, s.commit);
    let proof = prover.prove_batchable();

    let decode = |p: Point| {
        curve25519_dalek_ng::ristretto::CompressedRistretto(p.to_bytes())
    };
    let mut transcript = Transcript::new(b"venc-dleqs");
    let mut verifier = Verifier::new(b"venc-dleqs", &mut transcript);
    let w = verifier.allocate_scalar(b"ri_prime");
    let a = verifier.allocate_point(b"0.0", decode(Point::generator())).unwrap();
    let b = verifier.allocate_point(b"0.1", decode(s.commit.0)).unwrap();
    let c = verifier.allocate_point(b"1.0", decode(s.key.sub(&s.base))).unwrap();
    let d = verifier.allocate_point(b"1.1", decode(s.encryption.sub(&s.commit.1))).unwrap();
    zkp::toolbox::SchnorrCS::constrain(&mut verifier, b, vec![(w, a)]);
    zkp::toolbox::SchnorrCS::constrain(&mut verifier, d, vec![(w, c)]);
    assert!(verifier.verify_batchable(&proof).is_ok());
}

#[test]
fn statement_with_the_neutral_element_is_not_taken() {
    let mut s = slot();
    s.key = s.base;
    let mut transcript = Transcript::new(b"venc-dleqs");
    let mut verifier = Verifier::new(b"venc-dleqs", &mut transcript);
    assert!(!verify_eqaulity(&mut verifier, s.encryption, s.key, s.base, s.commit));

    let mut s = slot();
    s.encryption = s.commit.1;
    let mut transcript = Transcript::new(b"venc-dleqs");
    let mut verifier = Verifier::new(b"venc-dleqs", &mut transcript);
    assert!(!verify_eqaulity(&mut verifier, s.encryption, s.key, s.base, s.commit));

    let mut s = slot();
    s.commit.0 = Point::base_mul(&Scalar::zero());
    let mut transcript = Transcript::new(b"venc-dleqs");
    let mut verifier = Verifier::new(b"venc-dleqs", &mut transcript);
    assert!(!verify_eqaulity(&mut verifier, s.encryption, s.key, s.base, s.commit));
}

#[test]
fn proof_under_another_tag_is_not_accepted() {
    let slots = [slot()];
    let mut transcript = Transcript::new(b"dlc-dleqs");
    let mut prover = Prover::new(b"dlc-dleqs", &mut transcript);
    prove_eqaulity(&mut prover, slots[0].witness, slots[0].encryption, slots[0].key, slots[0].base, slots[0].commit);
    let proof = prover.prove_batchable();
    assert!(!verify(&slots, &proof));
    assert_eq!(dlc_venc_adaptor::dleq::domain_tag(), b"venc-dleqs");
}
