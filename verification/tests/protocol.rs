use dlc_venc_adaptor::alice::Alice1;
use dlc_venc_adaptor::bob::{Bob1, Bob2};
use dlc_venc_adaptor::common::{compute_optimal_params, Candidate, Params};
use dlc_venc_adaptor::error::Error;
use dlc_venc_adaptor::group::{Point, Scalar};
use dlc_venc_adaptor::messages::{Message1, Message2, Message3};

fn bucket_size_for(s: f64, n: f64, p: f64) -> u8 {
    ((s + n.log2() - p.log2()) / ((n - n * p).log2() - p.log2() / (1.0 - p))).ceil() as u8
}

fn candidates(security_param: u8, n_encryptions: usize) -> Vec<Candidate> {
    let n = n_encryptions as f64;
    let mut found = Vec::new();
    for per_mille in 500u16..999 {
        let p = per_mille as f64 / 1000.0;
        if n >= 1.0 / (1.0 - p) {
            found.push(Candidate {
                closed_proportion: per_mille,
                bucket_size: bucket_size_for(security_param as f64, n, p),
            });
        }
    }
    found
}

fn params_for(security_param: u8, n_encryptions: usize) -> Params {
    let (closed_proportion, bucket_size) = compute_optimal_params(
        security_param,
        n_encryptions,
        &candidates(security_param, n_encryptions),
    )
    .unwrap();
    let params = Params {
        closed_proportion,
        bucket_size,
        elgamal_base: Point::random(),
        n_encryptions,
    };
    assert!(params.is_valid());
    params
}

struct Session {
    params: Params,
    secrets: Vec<Scalar>,
    images: Vec<Point>,
    decryption_keys: Vec<Scalar>,
    encryption_keys: Vec<Point>,
}

fn session(params: Params) -> Session {
    let secrets: Vec<Scalar> = (0..params.n_encryptions).map(|_| Scalar::random()).collect();
    let images = secrets.iter().map(Point::base_mul).collect();
    let decryption_keys: Vec<Scalar> = (0..params.n_encryptions).map(|_| Scalar::random()).collect();
    let encryption_keys = decryption_keys.iter().map(Point::base_mul).collect();
    Session { params, secrets, images, decryption_keys, encryption_keys }
}

fn first_rounds(s: &Session) -> (Alice1, Bob1, Message2) {
    let (alice, m1) = Alice1::new(&s.params);
    let (bob, m2) = Bob1::new(m1, &s.params).unwrap();
    (alice, bob, m2)
}

fn respond(s: &Session, alice: Alice1, m2: Message2) -> Result<Message3, Error> {
    alice.receive_message(m2, &s.secrets, &s.encryption_keys, &s.params)
}

fn verify(s: &Session, bob: Bob1, m3: Message3) -> Result<Bob2, Error> {
    bob.receive_message(m3, &s.images, &s.encryption_keys, &s.params)
}

fn small_params() -> Params {
    Params { closed_proportion: 500, bucket_size: 3, elgamal_base: Point::random(), n_encryptions: 2 }
}

#[test]
fn single_encryption_round_trip() {
    assert_eq!(compute_optimal_params(30, 1, &candidates(30, 1)), Some((500, 30)));
    let s = session(params_for(30, 1));
    assert_eq!(s.params.closed_proportion, 500);
    assert_eq!(s.params.bucket_size, 30);
    assert_eq!(s.params.NB(), 30);
    assert_eq!(s.params.M(), 60);
    assert_eq!(s.params.num_openings(), 30);

    let (alice, bob, m2) = first_rounds(&s);
    let m3 = respond(&s, alice, m2).unwrap();
    assert_eq!(m3.openings.len(), 30);
    assert_eq!(m3.encryptions.len(), 30);
    let bob = verify(&s, bob, m3).unwrap();
    let decrypted = bob
        .decrypt_bucket_with_key(0, s.decryption_keys[0], s.images[0], &s.params)
        .unwrap();
    assert_eq!(decrypted, s.secrets[0]);
}

#[test]
fn sixteen_encryptions_round_trip() {
    let s = session(params_for(30, 16));
    assert!(s.params.closed_proportion >= 500 && s.params.closed_proportion < 999);
    assert!(s.params.bucket_size >= 1);
    let (alice, bob, m2) = first_rounds(&s);
    let m3 = respond(&s, alice, m2).unwrap();
    let bob = verify(&s, bob, m3).unwrap();
    for i in 0..16 {
        let decrypted = bob
            .decrypt_bucket_with_key(i, s.decryption_keys[i], s.images[i], &s.params)
            .unwrap();
        assert_eq!(decrypted, s.secrets[i]);
    }
}

#[test]
fn every_bucket_decrypts_its_own_target_only() {
    let s = session(small_params());
    let (alice, bob, m2) = first_rounds(&s);
    let m3 = respond(&s, alice, m2).unwrap();
    let bob = verify(&s, bob, m3).unwrap();
    assert_eq!(
        bob.decrypt_bucket_with_key(0, s.decryption_keys[0], s.images[0], &s.params),
        Ok(s.secrets[0])
    );
    assert_eq!(
        bob.decrypt_bucket_with_key(1, s.decryption_keys[1], s.images[1], &s.params),
        Ok(s.secrets[1])
    );
    assert_eq!(
        bob.decrypt_bucket_with_key(0, s.decryption_keys[0], s.images[1], &s.params),
        Err(Error::MaliciousEncryption)
    );
}

#[test]
fn adversarial_opening_is_refused() {
    let s = session(small_params());
    let (alice, _bob, mut m2) = first_rounds(&s);
    let nb = s.params.NB();
    m2.bucket_mapping[2] = nb;
    assert_eq!(
        respond(&s, alice, m2).err(),
        Some(Error::BucketOutOfRange { index: nb, limit: nb })
    );
}

#[test]
fn first_bucket_out_of_range_is_reported() {
    let s = session(small_params());
    let (alice, _bob, mut m2) = first_rounds(&s);
    m2.bucket_mapping[1] = 77;
    m2.bucket_mapping[4] = 99;
    let error = respond(&s, alice, m2).err().unwrap();
    assert_eq!(error, Error::BucketOutOfRange { index: 77, limit: 6 });
    assert_eq!(error.message(), "bucket was mapped to 77 which is outside of range 0..6");
}

#[test]
fn wrong_number_of_openings_is_refused() {
    let s = session(small_params());
    let (alice, _bob, mut m2) = first_rounds(&s);
    let dropped = *m2.openings.iter().next().unwrap();
    m2.openings.remove(&dropped);
    let error = respond(&s, alice, m2).err().unwrap();
    assert_eq!(error, Error::WrongNumberOfOpenings { expected: 6, got: 5 });
    assert_eq!(error.message(), "wrong number of openings requested. Expected 6 got 5");
}

#[test]
fn bucket_mapping_of_wrong_length_is_refused() {
    let s = session(small_params());
    let (alice, _bob, mut m2) = first_rounds(&s);
    m2.bucket_mapping.pop();
    assert_eq!(respond(&s, alice, m2).err(), Some(Error::WrongMessageLength));
}

#[test]
fn out_of_range_comes_before_wrong_number_of_openings() {
    let s = session(small_params());
    let (alice, _bob, mut m2) = first_rounds(&s);
    m2.bucket_mapping[0] = 6;
    m2.openings.clear();
    assert_eq!(
        respond(&s, alice, m2).err(),
        Some(Error::BucketOutOfRange { index: 6, limit: 6 })
    );
}

#[test]
fn wrong_number_of_commitments_is_refused() {
    let params = small_params();
    let (_alice, mut m1) = Alice1::new(&params);
    m1.commits.pop();
    let error = Bob1::new(m1, &params).err().unwrap();
    assert_eq!(error, Error::WrongNumberOfCommitments);
    assert_eq!(error.message(), "Alice sent wrong number of commitments");
}

#[test]
fn malicious_padded_secret_is_reported() {
    let s = session(small_params());
    let (alice, bob, m2) = first_rounds(&s);
    let mut m3 = respond(&s, alice, m2).unwrap();
    m3.encryptions[0].1 = m3.encryptions[0].1.add(&Scalar::one());
    let error = verify(&s, bob, m3).err().unwrap();
    assert_eq!(error, Error::PaddedSecretInvalid);
    assert_eq!(error.message(), "padded secret wasn't valid");
}

#[test]
fn replacing_any_padded_secret_fails() {
    let s = session(small_params());
    for slot in 0..6 {
        let (alice, bob, m2) = first_rounds(&s);
        let mut m3 = respond(&s, alice, m2).unwrap();
        m3.encryptions[slot].1 = Scalar::random();
        assert_eq!(verify(&s, bob, m3).err(), Some(Error::PaddedSecretInvalid));
    }
}

#[test]
fn wrong_opening_is_reported() {
    let s = session(small_params());
    let (alice, bob, m2) = first_rounds(&s);
    let mut m3 = respond(&s, alice, m2).unwrap();
    m3.openings[3] = m3.openings[3].add(&Scalar::one());
    let error = verify(&s, bob, m3).err().unwrap();
    assert_eq!(error, Error::DecommitmentWrong);
    assert_eq!(error.message(), "decommitment was wrong");
}

#[test]
fn response_of_wrong_length_is_refused() {
    let s = session(small_params());
    let (alice, bob, m2) = first_rounds(&s);
    let mut m3 = respond(&s, alice, m2).unwrap();
    m3.openings.pop();
    assert_eq!(verify(&s, bob, m3).err(), Some(Error::WrongMessageLength));

    let (alice, bob, m2) = first_rounds(&s);
    let mut m3 = respond(&s, alice, m2).unwrap();
    m3.encryptions.pop();
    assert_eq!(verify(&s, bob, m3).err(), Some(Error::WrongMessageLength));
}

#[test]
fn changed_pad_of_a_commitment_is_reported() {
    let s = session(small_params());
    let (alice, m1) = Alice1::new(&s.params);
    let mut changed = Message1 { commits: m1.commits.clone() };
    for commit in changed.commits.iter_mut() {
        commit.pad[7] ^= 0x10;
    }
    let (bob, m2) = Bob1::new(changed, &s.params).unwrap();
    let m3 = respond(&s, alice, m2).unwrap();
    let error = verify(&s, bob, m3).err().unwrap();
    assert_eq!(error, Error::DecommitmentMismatch);
    assert_eq!(error.message(), "decommitment of chain scalar didn't match chain point");
}

#[test]
fn changed_commitment_makes_the_check_fail() {
    let s = session(small_params());
    for index in 0..12 {
        for part in 0..3 {
            let (alice, m1) = Alice1::new(&s.params);
            let mut changed = Message1 { commits: m1.commits.clone() };
            let other = Point::random();
            match part {
                0 => changed.commits[index].C.0 = other,
                1 => changed.commits[index].C.1 = other,
                _ => changed.commits[index].R = other,
            }
            let (bob, m2) = Bob1::new(changed, &s.params).unwrap();
            let m3 = respond(&s, alice, m2).unwrap();
            assert!(verify(&s, bob, m3).is_err());
        }
    }
}

#[test]
fn changed_ciphertext_makes_the_proof_fail() {
    let s = session(small_params());
    let (alice, bob, m2) = first_rounds(&s);
    let mut m3 = respond(&s, alice, m2).unwrap();
    m3.encryptions[4].0 = Point::random();
    let error = verify(&s, bob, m3).err().unwrap();
    assert_eq!(error, Error::ProofInvalid);
    assert_eq!(
        error.message(),
        "proof of equality between ciphertext and commitment was invalid"
    );
}

#[test]
fn proof_of_another_session_is_not_accepted() {
    let s = session(small_params());
    let (alice, bob, m2) = first_rounds(&s);
    let mut m3 = respond(&s, alice, m2).unwrap();
    let (other_alice, _other_bob, other_m2) = first_rounds(&s);
    m3.proof = respond(&s, other_alice, other_m2).unwrap().proof;
    assert_eq!(verify(&s, bob, m3).err(), Some(Error::ProofInvalid));
}

#[test]
fn statement_with_the_neutral_element_is_not_accepted() {
    let mut s = session(small_params());
    s.encryption_keys[1] = s.params.elgamal_base;
    let (alice, bob, m2) = first_rounds(&s);
    let m3 = respond(&s, alice, m2).unwrap();
    assert!(bob.assemble(&m3, &s.images, &s.params).is_ok());
    assert!(!bob.verify_proof(&m3, &s.encryption_keys, &s.params));
    assert_eq!(verify(&s, bob, m3).err(), Some(Error::ProofInvalid));
}

#[test]
fn wrong_decryption_key_fails() {
    let s = session(small_params());
    let (alice, bob, m2) = first_rounds(&s);
    let m3 = respond(&s, alice, m2).unwrap();
    let bob = verify(&s, bob, m3).unwrap();
    let error = bob
        .decrypt_bucket_with_key(0, s.decryption_keys[1], s.images[0], &s.params)
        .err()
        .unwrap();
    assert_eq!(error, Error::MaliciousEncryption);
    assert_eq!(error.message(), "the encryption was malicious");
}

#[test]
fn bucket_that_does_not_exist_fails() {
    let s = session(small_params());
    let (alice, bob, m2) = first_rounds(&s);
    let m3 = respond(&s, alice, m2).unwrap();
    let bob = verify(&s, bob, m3).unwrap();
    assert_eq!(
        bob.decrypt_bucket_with_key(2, s.decryption_keys[0], s.images[0], &s.params),
        Err(Error::MaliciousEncryption)
    );
}

#[test]
fn conclude_follows_the_verdict() {
    let kept = Bob2::from_buckets(vec![]);
    assert!(dlc_venc_adaptor::bob::conclude(Ok(kept), true).is_ok());
    let kept = Bob2::from_buckets(vec![]);
    assert_eq!(dlc_venc_adaptor::bob::conclude(Ok(kept), false).err(), Some(Error::ProofInvalid));
    assert_eq!(
        dlc_venc_adaptor::bob::conclude(Err(Error::DecommitmentWrong), true).err(),
        Some(Error::DecommitmentWrong)
    );
}

#[test]
fn receiver_hands_over_the_statement_of_every_slot() {
    let s = session(small_params());
    let (alice, bob, m2) = first_rounds(&s);
    let m3 = respond(&s, alice, m2).unwrap();
    let mut transcript = zkp::Transcript::new(b"venc-dleqs");
    let mut verifier = zkp::toolbox::verifier::Verifier::new(b"venc-dleqs", &mut transcript);
    assert!(bob.state_slots(&mut verifier, &m3, &s.encryption_keys, &s.params));
    assert!(verifier.verify_batchable(&m3.proof).is_ok());

    let mut transcript = zkp::Transcript::new(b"venc-dleqs");
    let verifier = zkp::toolbox::verifier::Verifier::new(b"venc-dleqs", &mut transcript);
    assert!(verifier.verify_batchable(&m3.proof).is_err());
}

#[test]
fn receiver_stops_at_a_statement_that_is_not_taken() {
    let mut s = session(small_params());
    s.encryption_keys[1] = s.params.elgamal_base;
    let (alice, bob, m2) = first_rounds(&s);
    let m3 = respond(&s, alice, m2).unwrap();
    let mut transcript = zkp::Transcript::new(b"venc-dleqs");
    let mut verifier = zkp::toolbox::verifier::Verifier::new(b"venc-dleqs", &mut transcript);
    assert!(!bob.state_slots(&mut verifier, &m3, &s.encryption_keys, &s.params));
}
