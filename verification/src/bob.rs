//! The receiver: challenges the sender's commitments, checks the response,
//! and later decrypts a bucket with the key that its encryptions anticipated.
use vstd::prelude::*;
use std::collections::BTreeSet;
use rand::seq::SliceRandom;
use crate::common::{lemma_params_round_trip, map_G_to_Zq, unpad, Params};
use crate::dleq::{
    admissible, domain_tag, lemma_verifier_took_one_more, statement, transcript_new,
    verifier_finish, verifier_new, verifier_took, verify_eqaulity,
};
use zkp::toolbox::verifier::Verifier;
use crate::error::Error;
use crate::group::{
    base_mul, fresh_generator, group_order, ristretto_add, ristretto_decodes, ristretto_mul,
    ristretto_sub, Point, Scalar,
};
use crate::messages::{
    closed_indices, insert_opening, lemma_opened_count, lemma_partition, opened_indices,
    partition, Commit, Message1, Message2, Message3,
};
use crate::alice::lemma_bucket_of_slot;

verus! {

/// What the receiver keeps of one bucket slot: the first half C₀ of the
/// commitment with the encryption, the padded secret, and the pad.
pub type Entry = ((Point, Point), Scalar, [u8; 32]);

/// The receiver after its challenge. It holds the commitments and the challenge.
pub struct Bob1 {
    commits: Vec<Commit>,
    message2: Message2,
}

/// The receiver after it has accepted the response. It holds, for each
/// bucket, the entries of the bucket's slots.
pub struct Bob2 {
    verifiably_encrypted: Vec<Vec<Entry>>,
}

/// The commitment that the challenge puts into bucket slot `k`.
pub open spec fn slot_commit(commits: Seq<Commit>, challenge: &Message2, k: int) -> Commit {
    commits[closed_indices(commits.len(), challenge.openings@)[challenge.bucket_mapping@[k] as int] as int]
}

/// What the receiver keeps of bucket slot `k`.
pub open spec fn slot_entry(
    commits: Seq<Commit>,
    challenge: &Message2,
    response: &Message3,
    k: int,
) -> Entry {
    let commit = slot_commit(commits, challenge, k);
    ((commit.C.0, response.encryptions@[k].0), response.encryptions@[k].1, commit.pad)
}

/// What is wrong with the opening r′ of a commitment under the base h, if
/// anything: r′·g is not C₀, or the scalar that the pad uncovers under
/// C₁ − r′·h does not have the image R.
pub open spec fn opening_error(commit: Commit, r_prime: nat, h: Seq<u8>) -> Option<Error> {
    if base_mul(r_prime) != commit.C.0@ {
        Some(Error::DecommitmentWrong)
    } else if base_mul(
        unpad(ristretto_sub(commit.C.1@, ristretto_mul(r_prime, h)), commit.pad@),
    ) != commit.R@ {
        Some(Error::DecommitmentMismatch)
    } else {
        None
    }
}

/// The first thing wrong among the first `upto` openings, if anything.
pub open spec fn openings_error(
    commits: Seq<Commit>,
    opened: Seq<usize>,
    openings: Seq<Scalar>,
    h: Seq<u8>,
    upto: nat,
) -> Option<Error>
    decreases upto,
{
    if upto == 0 {
        None
    } else {
        match openings_error(commits, opened, openings, h, (upto - 1) as nat) {
            Some(e) => Some(e),
            None => opening_error(commits[opened[upto - 1] as int], openings[upto - 1]@, h),
        }
    }
}

/// The padded secret fits the image Y of the secret and the commitment's
/// point R: Y + R = padded·g.
pub open spec fn padded_fits(image: Seq<u8>, commit: Commit, padded: nat) -> bool {
    ristretto_add(image, commit.R@) == base_mul(padded)
}

/// The padded secrets of the first `upto` bucket slots fit.
pub open spec fn slots_fit(
    commits: Seq<Commit>,
    challenge: &Message2,
    response: &Message3,
    images: Seq<Point>,
    bucket_size: int,
    upto: nat,
) -> bool
    decreases upto,
{
    upto == 0 || (slots_fit(commits, challenge, response, images, bucket_size, (upto - 1) as nat)
        && padded_fits(
        images[(upto - 1) / bucket_size]@,
        slot_commit(commits, challenge, upto - 1),
        response.encryptions@[upto - 1].1@,
    ))
}

/// What is wrong with the response apart from its proof, if anything: a
/// sequence of the wrong length, else the first opening that fails, else a
/// padded secret that does not fit.
pub open spec fn response_error(
    commits: Seq<Commit>,
    challenge: &Message2,
    response: &Message3,
    images: Seq<Point>,
    params: &Params,
) -> Option<Error> {
    let opened = opened_indices(commits.len(), challenge.openings@);
    if response.openings@.len() != opened.len() || response.encryptions@.len()
        != params.spec_NB() {
        Some(Error::WrongMessageLength)
    } else {
        match openings_error(
            commits,
            opened,
            response.openings@,
            params.elgamal_base@,
            opened.len(),
        ) {
            Some(e) => Some(e),
            None => if slots_fit(
                commits,
                challenge,
                response,
                images,
                params.bucket_size as int,
                params.spec_NB(),
            ) {
                None
            } else {
                Some(Error::PaddedSecretInvalid)
            },
        }
    }
}

/// The entries that the receiver keeps: bucket b holds those of the slots
/// b·B, …, b·B + B − 1.
pub open spec fn response_buckets(
    commits: Seq<Commit>,
    challenge: &Message2,
    response: &Message3,
    params: &Params,
) -> Seq<Seq<Entry>> {
    Seq::new(
        params.n_encryptions as nat,
        |b: int|
            Seq::new(
                params.bucket_size as nat,
                |i: int| slot_entry(commits, challenge, response, b * params.bucket_size + i),
            ),
    )
}

/// The statement that the proof has to show of bucket slot `k`.
pub open spec fn slot_statement(
    commits: Seq<Commit>,
    challenge: &Message2,
    response: &Message3,
    keys: Seq<Point>,
    params: &Params,
    k: int,
) -> (Seq<u8>, Seq<u8>, Seq<u8>, Seq<u8>) {
    let commit = slot_commit(commits, challenge, k);
    statement(
        response.encryptions@[k].0@,
        keys[k / (params.bucket_size as int)]@,
        params.elgamal_base@,
        (commit.C.0@, commit.C.1@),
    )
}

/// The statements of the first `upto` bucket slots are all ones that a
/// verifier takes.
pub open spec fn statements_admissible(
    commits: Seq<Commit>,
    challenge: &Message2,
    response: &Message3,
    keys: Seq<Point>,
    params: &Params,
    upto: nat,
) -> bool
    decreases upto,
{
    upto == 0 || (statements_admissible(commits, challenge, response, keys, params, (upto - 1) as nat)
        && admissible(slot_statement(commits, challenge, response, keys, params, upto - 1)))
}

/// The statements of the first `upto` bucket slots, in the order of the slots.
pub open spec fn slot_statements(
    commits: Seq<Commit>,
    challenge: &Message2,
    response: &Message3,
    keys: Seq<Point>,
    params: &Params,
    upto: nat,
) -> Seq<(Seq<u8>, Seq<u8>, Seq<u8>, Seq<u8>)> {
    Seq::new(upto, |k: int| slot_statement(commits, challenge, response, keys, params, k))
}

/// The secret that an entry holds for the decryption key σ: the padded
/// secret less the scalar that the pad uncovers under enc − σ·C₀.
pub open spec fn entry_secret(entry: Entry, key: nat) -> nat {
    ((entry.1@ - unpad(ristretto_sub(entry.0.1@, ristretto_mul(key, entry.0.0@)), entry.2@)) % (
    group_order() as int)) as nat
}

/// The secret with the expected image that the first `upto` entries of a
/// bucket give for the decryption key: that of the first entry whose
/// secret has the image.
pub open spec fn bucket_secret(bucket: Seq<Entry>, key: nat, image: Seq<u8>, upto: nat) -> Option<
    nat,
>
    decreases upto,
{
    if upto == 0 {
        None
    } else {
        match bucket_secret(bucket, key, image, (upto - 1) as nat) {
            Some(secret) => Some(secret),
            None => if base_mul(entry_secret(bucket[upto - 1], key)) == image {
                Some(entry_secret(bucket[upto - 1], key))
            } else {
                None
            },
        }
    }
}

/// The entry is the one that a sender makes for the secret y and the
/// encryption key σ·g from the pad r, the blinding r′ and the point P:
/// C₀ = r′·g, enc = r′·(σ·g) + P, padded = r + y, and the pad uncovers r
/// under P.
pub open spec fn entry_made_of(
    entry: Entry,
    key: nat,
    secret: nat,
    r: nat,
    r_prime: nat,
    mapped: Seq<u8>,
) -> bool {
    &&& entry.0.0@ == base_mul(r_prime)
    &&& entry.0.1@ == ristretto_add(ristretto_mul(r_prime, base_mul(key)), mapped)
    &&& entry.1@ == (r + secret) % group_order()
    &&& unpad(mapped, entry.2@) == r
}

/// The entry is one that a sender who follows the protocol makes for the
/// secret y and the encryption key σ·g.
pub open spec fn honest_entry(entry: Entry, key: nat, secret: nat) -> bool {
    exists|r: nat, r_prime: nat, mapped: Seq<u8>|
        r_prime < group_order() && ristretto_decodes(mapped) && #[trigger] entry_made_of(
            entry,
            key,
            secret,
            r,
            r_prime,
            mapped,
        )
}

/// The bucket holds an entry that a sender who follows the protocol makes
/// for the secret y and the encryption key σ·g.
pub open spec fn holds_honest_entry(bucket: Seq<Entry>, key: nat, secret: nat) -> bool {
    exists|i: int| 0 <= i < bucket.len() && #[trigger] honest_entry(bucket[i], key, secret)
}

/// What an honest sender answers is an honest response: if the receiver
/// holds the sender's commitments and the images are those of the
/// sender's targets, then the response that the sender's contract
/// describes is one that the receiver's check never refuses.
pub proof fn lemma_honest_sender(
    alice: &crate::alice::Alice1,
    challenge: &Message2,
    response: &Message3,
    targets: Seq<Scalar>,
    images: Seq<Point>,
    keys: Seq<Point>,
    params: &Params,
)
    requires
        alice.wf(params),
        crate::alice::responds(response, alice.secrets(), challenge, targets, keys, params),
        targets.len() >= params.n_encryptions,
        forall|b: int|
            0 <= b < params.n_encryptions ==> (#[trigger] targets[b]).wf() && images[b]@
                == base_mul(targets[b]@),
    ensures
        honest_response(
            alice.commits(),
            challenge,
            response,
            images,
            params,
            alice.secrets(),
            targets,
            keys,
        ),
{
}

/// In a run that both parties follow, every entry that the receiver keeps
/// is one that an honest sender makes for the target and the key of the
/// entry's bucket: entry `i` of bucket `b` for target `b` and the key whose
/// decryption key is `decryption_keys[b]`.
pub proof fn lemma_honest_entries(
    commits: Seq<Commit>,
    challenge: &Message2,
    response: &Message3,
    images: Seq<Point>,
    params: &Params,
    secrets: Seq<(Scalar, Scalar, Point)>,
    targets: Seq<Scalar>,
    keys: Seq<Point>,
    decryption_keys: Seq<nat>,
    b: int,
    i: int,
)
    requires
        params.wf(),
        challenge.wf(params),
        commits.len() == params.spec_M(),
        honest_response(commits, challenge, response, images, params, secrets, targets, keys),
        keys.len() >= params.n_encryptions,
        decryption_keys.len() >= params.n_encryptions,
        forall|t: int|
            0 <= t < params.n_encryptions ==> (#[trigger] keys[t])@ == base_mul(decryption_keys[t]),
        0 <= b < params.n_encryptions,
        0 <= i < params.bucket_size,
    ensures
        honest_entry(
            response_buckets(commits, challenge, response, params)[b][i],
            decryption_keys[b],
            targets[b]@,
        ),
{
    let size = params.bucket_size as int;
    let k = b * size + i;
    lemma_slot_of_bucket(b, i, size, params.n_encryptions as int);
    lemma_params_round_trip(*params);
    lemma_partition(commits.len(), challenge.openings@);
    lemma_opened_count(commits.len(), challenge.openings@);
    assert(params.n_encryptions * size == params.spec_NB()) by (nonlinear_arith)
        requires
            params.spec_NB() == (params.n_encryptions * params.bucket_size) as nat,
            size == params.bucket_size,
    ;
    let slot = challenge.bucket_mapping@[k];
    let index = closed_indices(commits.len(), challenge.openings@)[slot as int] as int;
    let secret = secrets[index];
    let entry = response_buckets(commits, challenge, response, params)[b][i];
    assert(entry == slot_entry(commits, challenge, response, k));
    assert(secret == crate::alice::slot_secret(secrets, challenge, k));
    assert(crate::alice::encrypts(
        response.encryptions@[k],
        secret,
        keys[k / size]@,
        targets[k / size]@,
    ));
    assert(commits[index].made_from(secret, params.elgamal_base@));
    assert(entry_made_of(entry, decryption_keys[b], targets[b]@, secret.0@, secret.1@, secret.2@));
}

/// Taking the pad away from a padded secret gives the secret, in Z_q.
pub proof fn lemma_unpadded(r: int, y: int, q: int)
    requires
        0 <= r < q,
        0 <= y < q,
    ensures
        ((r + y) % q - r) % q == y,
{
    vstd::arithmetic::div_mod::lemma_sub_mod_noop(r + y, r, q);
    vstd::arithmetic::div_mod::lemma_small_mod(r as nat, q as nat);
    vstd::arithmetic::div_mod::lemma_small_mod(y as nat, q as nat);
}

/// The response is the one that a sender who follows the protocol gives:
/// it holds the commitments' secrets, the images are those of its targets,
/// and the response is the one that these determine.
pub open spec fn honest_response(
    commits: Seq<Commit>,
    challenge: &Message2,
    response: &Message3,
    images: Seq<Point>,
    params: &Params,
    secrets: Seq<(Scalar, Scalar, Point)>,
    targets: Seq<Scalar>,
    keys: Seq<Point>,
) -> bool {
    &&& secrets.len() == commits.len()
    &&& forall|i: int|
        0 <= i < secrets.len() ==> (#[trigger] secrets[i]).0.wf() && secrets[i].1.wf()
            && secrets[i].2.wf() && commits[i].made_from(secrets[i], params.elgamal_base@)
    &&& targets.len() >= params.n_encryptions
    &&& forall|b: int|
        0 <= b < params.n_encryptions ==> (#[trigger] targets[b]).wf() && images[b]@ == base_mul(
            targets[b]@,
        )
    &&& crate::alice::responds(response, secrets, challenge, targets, keys, params)
}

/// The outcome of the receiver's check, given what is wrong with the response
/// apart from its proof and the verdict on the proof.
pub fn conclude(checked: Result<Bob2, Error>, accepted: bool) -> (result: Result<Bob2, Error>)
    ensures
        result == match checked {
            Err(e) => Err(e),
            Ok(bob) => if accepted {
                Ok(bob)
            } else {
                Err(Error::ProofInvalid)
            },
        },
{
    match checked {
        Err(e) => Err(e),
        Ok(bob) => if accepted {
            Ok(bob)
        } else {
            Err(Error::ProofInvalid)
        },
    }
}

impl Bob1 {
    /// The commitments received.
    pub closed spec fn commits(&self) -> Seq<Commit> {
        self.commits@
    }

    /// The challenge sent.
    pub closed spec fn challenge(&self) -> &Message2 {
        &self.message2
    }

    /// The receiver holds M commitments and a challenge made for the parameters.
    pub open spec fn wf(&self, params: &Params) -> bool {
        &&& self.commits().len() == params.spec_M()
        &&& self.challenge().wf(params)
    }

    /// The receiver that holds the given commitments and challenge.
    pub fn with_challenge(commits: Vec<Commit>, message2: Message2) -> (bob: Bob1)
        ensures
            bob.commits() == commits@,
            *bob.challenge() == message2,
    {
        Bob1 { commits, message2 }
    }

    /// Checks the opening r′ of a commitment under the base h. The opening
    /// of a commitment that was made with the blinding r′ is never refused.
    pub fn check_opening(commit: &Commit, ri_prime: &Scalar, h: &Point) -> (error: Option<Error>)
        ensures
            error == opening_error(*commit, ri_prime@, h@),
            forall|r: nat, mapped: Seq<u8>|
                ristretto_decodes(mapped) && #[trigger] commit.made_of(r, ri_prime@, mapped, h@)
                    ==> error is None,
    {
        if !Point::base_mul(ri_prime).equals(&commit.C.0) {
            return Some(Error::DecommitmentWrong);
        }
        let blinded = h.mul(ri_prime);
        let ri_mapped = commit.C.1.sub(&blinded);
        let ri = map_G_to_Zq(ri_mapped, commit.pad);
        if !Point::base_mul(&ri).equals(&commit.R) {
            assert forall|r: nat, mapped: Seq<u8>|
                ristretto_decodes(mapped) && #[trigger] commit.made_of(
                    r,
                    ri_prime@,
                    mapped,
                    h@,
                ) implies false by {
                assert(commit.C.1@ == ristretto_add(blinded@, mapped));
                assert(ri_mapped@ == mapped);
            }
            return Some(Error::DecommitmentMismatch);
        }
        None
    }

    /// Checks a padded secret against the image Y of the secret and the
    /// commitment's point R. The sum of a pad and a secret is never refused
    /// for their images, and no two padded secrets fit the same points.
    pub fn check_padded(image: &Point, commit: &Commit, padded: &Scalar) -> (fits: bool)
        ensures
            fits == padded_fits(image@, *commit, padded@),
            forall|r: nat, y: nat|
                r < group_order() && y < group_order() && commit.R@ == #[trigger] base_mul(r)
                    && image@ == #[trigger] base_mul(y) && padded@ == (r + y) % group_order()
                    ==> fits,
            fits ==> forall|other: nat|
                other < group_order() && other != padded@ ==> !#[trigger] padded_fits(
                    image@,
                    *commit,
                    other,
                ),
    {
        let sum = image.add(&commit.R);
        let expected = Point::base_mul(padded);
        let fits = sum.equals(&expected);
        proof {
            assert forall|r: nat, y: nat|
                r < group_order() && y < group_order() && commit.R@ == #[trigger] base_mul(r)
                    && image@ == #[trigger] base_mul(y) && padded@ == (r + y)
                    % group_order() implies fits by {
                vstd::arithmetic::div_mod::lemma_add_mod_noop(y as int, r as int, group_order() as int);
                assert(sum@ == base_mul((y + r) % group_order()));
            }
            if fits {
                assert forall|other: nat|
                    other < group_order() && other != padded@ implies !#[trigger] padded_fits(
                    image@,
                    *commit,
                    other,
                ) by {
                    if padded_fits(image@, *commit, other) {
                        assert(expected@ == base_mul(other));
                    }
                }
            }
        }
        fits
    }

    /// Checks everything in the response but its proof: the lengths, every
    /// opening against its commitment, and every padded secret against the
    /// image of its bucket's secret. Gives the entries to keep for each
    /// bucket, or what is wrong.
    pub fn assemble(
        &self,
        message: &Message3,
        images_of_secrets_to_be_encrypted: &[Point],
        params: &Params,
    ) -> (result: Result<Bob2, Error>)
        requires
            params.wf(),
            self.wf(params),
            images_of_secrets_to_be_encrypted@.len() >= params.n_encryptions,
        ensures
            match result {
                Err(e) => response_error(
                    self.commits(),
                    self.challenge(),
                    message,
                    images_of_secrets_to_be_encrypted@,
                    params,
                ) == Some(e),
                Ok(bob) => {
                    &&& response_error(
                        self.commits(),
                        self.challenge(),
                        message,
                        images_of_secrets_to_be_encrypted@,
                        params,
                    ) is None
                    &&& bob.buckets() == response_buckets(
                        self.commits(),
                        self.challenge(),
                        message,
                        params,
                    )
                },
            },
            forall|secrets: Seq<(Scalar, Scalar, Point)>, targets: Seq<Scalar>, keys: Seq<Point>|
                #[trigger] honest_response(
                    self.commits(),
                    self.challenge(),
                    message,
                    images_of_secrets_to_be_encrypted@,
                    params,
                    secrets,
                    targets,
                    keys,
                ) ==> result is Ok,
    {
        let nb = params.NB();
        let bucket_size = params.bucket_size as usize;
        let (opened, closed) = partition(self.commits.len(), &self.message2.openings);
        proof {
            lemma_partition(self.commits@.len(), self.message2.openings@);
            lemma_opened_count(self.commits@.len(), self.message2.openings@);
            lemma_params_round_trip(*params);
        }
        if message.openings.len() != opened.len() || message.encryptions.len() != nb {
            return Err(Error::WrongMessageLength);
        }
        let ghost images = images_of_secrets_to_be_encrypted@;
        let mut j: usize = 0;
        while j < opened.len()
            invariant
                j <= opened@.len(),
                opened@ == opened_indices(self.commits@.len(), self.message2.openings@),
                opened@.len() == message.openings@.len(),
                message.encryptions@.len() == params.spec_NB(),
                forall|i: int| 0 <= i < opened@.len() ==> (#[trigger] opened@[i]) < self.commits@.len(),
                openings_error(
                    self.commits@,
                    opened@,
                    message.openings@,
                    params.elgamal_base@,
                    j as nat,
                ) is None,
            decreases opened@.len() - j,
        {
            let commit = self.commits[opened[j]];
            let ri_prime = message.openings[j];
            match Bob1::check_opening(&commit, &ri_prime, &params.elgamal_base) {
                Some(e) => {
                    proof {
                        assert(openings_error(
                            self.commits@,
                            opened@,
                            message.openings@,
                            params.elgamal_base@,
                            (j + 1) as nat,
                        ) == Some(e));
                        lemma_openings_error_stays(
                            self.commits@,
                            opened@,
                            message.openings@,
                            params.elgamal_base@,
                            (j + 1) as nat,
                            opened@.len(),
                        );
                        assert forall|
                            secrets: Seq<(Scalar, Scalar, Point)>,
                            targets: Seq<Scalar>,
                            keys: Seq<Point>,
                        | #[trigger]
                            honest_response(
                                self.commits@,
                                &self.message2,
                                message,
                                images,
                                params,
                                secrets,
                                targets,
                                keys,
                            ) implies false by {
                            let secret = secrets[opened@[j as int] as int];
                            assert(message.openings@[j as int]@ == secret.1@);
                            assert(commit.made_of(
                                secret.0@,
                                ri_prime@,
                                secret.2@,
                                params.elgamal_base@,
                            ));
                        }
                    }
                    return Err(e);
                },
                None => {},
            }
            j += 1;
        }
        let mut verifiably_encrypted: Vec<Vec<Entry>> = Vec::new();
        let mut ve_index: usize = 0;
        while ve_index < params.n_encryptions
            invariant
                ve_index <= params.n_encryptions,
                opened@ == opened_indices(self.commits@.len(), self.message2.openings@),
                opened@.len() == message.openings@.len(),
                openings_error(
                    self.commits@,
                    opened@,
                    message.openings@,
                    params.elgamal_base@,
                    opened@.len(),
                ) is None,
                params.wf(),
                nb == params.spec_NB(),
                bucket_size == params.bucket_size,
                self.commits@.len() == params.spec_M(),
                self.message2.wf(params),
                message.encryptions@.len() == nb,
                images_of_secrets_to_be_encrypted@.len() >= params.n_encryptions,
                images == images_of_secrets_to_be_encrypted@,
                closed@ == closed_indices(self.commits@.len(), self.message2.openings@),
                closed@.len() >= nb,
                forall|i: int| 0 <= i < closed@.len() ==> (#[trigger] closed@[i]) < self.commits@.len(),
                slots_fit(
                    self.commits@,
                    &self.message2,
                    message,
                    images_of_secrets_to_be_encrypted@,
                    params.bucket_size as int,
                    (ve_index * bucket_size) as nat,
                ),
                verifiably_encrypted@.len() == ve_index,
                forall|b: int|
                    0 <= b < ve_index ==> (#[trigger] verifiably_encrypted@[b])@ == Seq::new(
                        params.bucket_size as nat,
                        |i: int|
                            slot_entry(
                                self.commits@,
                                &self.message2,
                                message,
                                b * params.bucket_size + i,
                            ),
                    ),
            decreases params.n_encryptions - ve_index,
        {
            let secret_image = images_of_secrets_to_be_encrypted[ve_index];
            let mut bucket_of_encryptions: Vec<Entry> = Vec::new();
            let mut i: usize = 0;
            while i < bucket_size
                invariant
                    i <= bucket_size,
                    ve_index < params.n_encryptions,
                    opened@ == opened_indices(self.commits@.len(), self.message2.openings@),
                    opened@.len() == message.openings@.len(),
                    openings_error(
                        self.commits@,
                        opened@,
                        message.openings@,
                        params.elgamal_base@,
                        opened@.len(),
                    ) is None,
                    params.wf(),
                    nb == params.spec_NB(),
                    bucket_size == params.bucket_size,
                    self.commits@.len() == params.spec_M(),
                    self.message2.wf(params),
                    message.encryptions@.len() == nb,
                    images_of_secrets_to_be_encrypted@.len() >= params.n_encryptions,
                    images == images_of_secrets_to_be_encrypted@,
                    secret_image == images_of_secrets_to_be_encrypted@[ve_index as int],
                    closed@ == closed_indices(self.commits@.len(), self.message2.openings@),
                    closed@.len() >= nb,
                    forall|i: int|
                        0 <= i < closed@.len() ==> (#[trigger] closed@[i]) < self.commits@.len(),
                    slots_fit(
                        self.commits@,
                        &self.message2,
                        message,
                        images_of_secrets_to_be_encrypted@,
                        params.bucket_size as int,
                        (ve_index * bucket_size + i) as nat,
                    ),
                    bucket_of_encryptions@.len() == i,
                    forall|t: int|
                        0 <= t < i ==> (#[trigger] bucket_of_encryptions@[t]) == slot_entry(
                            self.commits@,
                            &self.message2,
                            message,
                            ve_index * params.bucket_size + t,
                        ),
                decreases bucket_size - i,
            {
                proof {
                    lemma_slot_of_bucket(
                        ve_index as int,
                        i as int,
                        bucket_size as int,
                        params.n_encryptions as int,
                    );
                }
                let k = ve_index * bucket_size + i;
                let commit = self.commits[closed[self.message2.bucket_mapping[k]]];
                let (ri_encryption, padded_secret) = message.encryptions[k];
                if !Bob1::check_padded(&secret_image, &commit, &padded_secret) {
                    proof {
                        lemma_slots_fit_stays(
                            self.commits@,
                            &self.message2,
                            message,
                            images,
                            params.bucket_size as int,
                            (k + 1) as nat,
                            nb as nat,
                        );
                        assert forall|
                            secrets: Seq<(Scalar, Scalar, Point)>,
                            targets: Seq<Scalar>,
                            keys: Seq<Point>,
                        | #[trigger]
                            honest_response(
                                self.commits@,
                                &self.message2,
                                message,
                                images,
                                params,
                                secrets,
                                targets,
                                keys,
                            ) implies false by {
                            let index = closed@[self.message2.bucket_mapping@[k as int] as int] as int;
                            let secret = secrets[index];
                            assert(secret == crate::alice::slot_secret(
                                secrets,
                                &self.message2,
                                k as int,
                            ));
                            assert(crate::alice::encrypts(
                                message.encryptions@[k as int],
                                secret,
                                keys[k as int / (params.bucket_size as int)]@,
                                targets[k as int / (params.bucket_size as int)]@,
                            ));
                            assert(commit.made_from(secret, params.elgamal_base@));
                            let target = targets[ve_index as int];
                            assert(target.wf());
                            assert(commit.R@ == base_mul(secret.0@));
                            assert(secret_image@ == base_mul(target@));
                        }
                    }
                    return Err(Error::PaddedSecretInvalid);
                }
                bucket_of_encryptions.push(((commit.C.0, ri_encryption), padded_secret, commit.pad));
                i += 1;
            }
            proof {
                assert(ve_index * bucket_size + bucket_size == (ve_index + 1) * bucket_size)
                    by (nonlinear_arith);
                assert(bucket_of_encryptions@ =~= Seq::new(
                    params.bucket_size as nat,
                    |i: int|
                        slot_entry(
                            self.commits@,
                            &self.message2,
                            message,
                            ve_index * params.bucket_size + i,
                        ),
                ));
            }
            verifiably_encrypted.push(bucket_of_encryptions);
            ve_index += 1;
        }
        let bob = Bob2 { verifiably_encrypted };
        proof {
            assert(params.n_encryptions * bucket_size == nb) by (nonlinear_arith)
                requires
                    nb == (params.n_encryptions * params.bucket_size) as nat,
                    bucket_size == params.bucket_size,
            ;
            assert(bob.buckets() =~= response_buckets(
                self.commits@,
                &self.message2,
                message,
                params,
            ));
        }
        Ok(bob)
    }
}

impl Bob1 {
    /// Hands the statement of every bucket slot to a verifier and asks it
    /// for the verdict on the proof. The verdict is never in favour if a
    /// statement is one that a verifier does not take.
    pub fn verify_proof(
        &self,
        message: &Message3,
        public_encryption_keys: &[Point],
        params: &Params,
    ) -> (accepted: bool)
        requires
            params.wf(),
            self.wf(params),
            message.encryptions@.len() == params.spec_NB(),
            public_encryption_keys@.len() >= params.n_encryptions,
        ensures
            accepted ==> statements_admissible(
                self.commits(),
                self.challenge(),
                message,
                public_encryption_keys@,
                params,
                params.spec_NB(),
            ),
    {
        let label = domain_tag();
        let mut transcript = transcript_new(label);
        let mut verifier = verifier_new(label, &mut transcript);
        if !self.state_slots(&mut verifier, message, public_encryption_keys, params) {
            return false;
        }
        verifier_finish(verifier, &message.proof)
    }

    /// Hands the verifier the statement of every bucket slot, in the order
    /// of the slots, up to the first that the verifier does not take. The
    /// result says whether the verifier took them all.
    pub fn state_slots(
        &self,
        verifier: &mut Verifier<'_>,
        message: &Message3,
        public_encryption_keys: &[Point],
        params: &Params,
    ) -> (taken: bool)
        requires
            params.wf(),
            self.wf(params),
            message.encryptions@.len() == params.spec_NB(),
            public_encryption_keys@.len() >= params.n_encryptions,
        ensures
            taken == statements_admissible(
                self.commits(),
                self.challenge(),
                message,
                public_encryption_keys@,
                params,
                params.spec_NB(),
            ),
            taken ==> verifier_took(
                *old(verifier),
                *final(verifier),
                slot_statements(
                    self.commits(),
                    self.challenge(),
                    message,
                    public_encryption_keys@,
                    params,
                    params.spec_NB(),
                ),
            ),
    {
        let nb = params.NB();
        let bucket_size = params.bucket_size as usize;
        let (_, closed) = partition(self.commits.len(), &self.message2.openings);
        proof {
            lemma_partition(self.commits@.len(), self.message2.openings@);
            lemma_opened_count(self.commits@.len(), self.message2.openings@);
            lemma_params_round_trip(*params);
        }
        let ghost before = *verifier;
        assert(slot_statements(
            self.commits@,
            &self.message2,
            message,
            public_encryption_keys@,
            params,
            0,
        ) =~= Seq::empty());
        let mut k: usize = 0;
        while k < nb
            invariant
                k <= nb,
                params.wf(),
                nb == params.spec_NB(),
                bucket_size == params.bucket_size,
                self.commits@.len() == params.spec_M(),
                self.message2.wf(params),
                message.encryptions@.len() == nb,
                public_encryption_keys@.len() >= params.n_encryptions,
                closed@ == closed_indices(self.commits@.len(), self.message2.openings@),
                closed@.len() >= nb,
                forall|i: int| 0 <= i < closed@.len() ==> (#[trigger] closed@[i]) < self.commits@.len(),
                statements_admissible(
                    self.commits@,
                    &self.message2,
                    message,
                    public_encryption_keys@,
                    params,
                    k as nat,
                ),
                verifier_took(
                    before,
                    *verifier,
                    slot_statements(
                        self.commits@,
                        &self.message2,
                        message,
                        public_encryption_keys@,
                        params,
                        k as nat,
                    ),
                ),
            decreases nb - k,
        {
            proof {
                lemma_bucket_of_slot(k as int, params.bucket_size as int, params.n_encryptions as int);
            }
            let commit = self.commits[closed[self.message2.bucket_mapping[k]]];
            let key = public_encryption_keys[k / bucket_size];
            let ghost middle = *verifier;
            let taken = verify_eqaulity(
                verifier,
                message.encryptions[k].0,
                key,
                params.elgamal_base,
                commit.C,
            );
            if !taken {
                proof {
                    lemma_statements_stay(
                        self.commits@,
                        &self.message2,
                        message,
                        public_encryption_keys@,
                        params,
                        (k + 1) as nat,
                        nb as nat,
                    );
                }
                return false;
            }
            proof {
                let sofar = slot_statements(
                    self.commits@,
                    &self.message2,
                    message,
                    public_encryption_keys@,
                    params,
                    k as nat,
                );
                let one = slot_statement(
                    self.commits@,
                    &self.message2,
                    message,
                    public_encryption_keys@,
                    params,
                    k as int,
                );
                lemma_verifier_took_one_more(before, middle, *verifier, sofar, one);
                assert(slot_statements(
                    self.commits@,
                    &self.message2,
                    message,
                    public_encryption_keys@,
                    params,
                    (k + 1) as nat,
                ) =~= sofar.push(one));
            }
            k += 1;
        }
        true
    }

    /// Checks the response. Where anything but the proof is wrong, the
    /// result says what. Otherwise the proof decides: if it is accepted,
    /// the receiver goes on with the entries of every bucket.
    pub fn receive_message(
        self,
        message: Message3,
        images_of_secrets_to_be_encrypted: &[Point],
        public_encryption_keys: &[Point],
        params: &Params,
    ) -> (result: Result<Bob2, Error>)
        requires
            params.wf(),
            self.wf(params),
            images_of_secrets_to_be_encrypted@.len() >= params.n_encryptions,
            public_encryption_keys@.len() >= params.n_encryptions,
        ensures
            match response_error(
                self.commits(),
                self.challenge(),
                &message,
                images_of_secrets_to_be_encrypted@,
                params,
            ) {
                Some(e) => result == Err::<Bob2, Error>(e),
                None => match result {
                    Ok(bob) => {
                        &&& bob.buckets() == response_buckets(
                            self.commits(),
                            self.challenge(),
                            &message,
                            params,
                        )
                        &&& statements_admissible(
                            self.commits(),
                            self.challenge(),
                            &message,
                            public_encryption_keys@,
                            params,
                            params.spec_NB(),
                        )
                    },
                    Err(e) => e == Error::ProofInvalid,
                },
            },
            forall|secrets: Seq<(Scalar, Scalar, Point)>, targets: Seq<Scalar>, keys: Seq<Point>|
                #[trigger] honest_response(
                    self.commits(),
                    self.challenge(),
                    &message,
                    images_of_secrets_to_be_encrypted@,
                    params,
                    secrets,
                    targets,
                    keys,
                ) ==> response_error(
                    self.commits(),
                    self.challenge(),
                    &message,
                    images_of_secrets_to_be_encrypted@,
                    params,
                ) is None,
    {
        match self.assemble(&message, images_of_secrets_to_be_encrypted, params) {
            Err(e) => Err(e),
            Ok(bob) => {
                let accepted = self.verify_proof(&message, public_encryption_keys, params);
                conclude(Ok(bob), accepted)
            },
        }
    }

    /// A challenge for the commitments, drawn from the generator: a random
    /// choice of M − NB of them to open (of all, where there are fewer), and
    /// a random order of the NB bucket slots.
    pub fn gen_message2(commits: &[Commit], params: &Params, rng: &mut rand::rngs::StdRng) -> (message:
        Message2)
        requires
            params.wf(),
        ensures
            message.bucket_mapping@.len() == params.spec_NB(),
            message.bucket_mapping@.no_duplicates(),
            forall|k: int|
                0 <= k < message.bucket_mapping@.len() ==> (#[trigger] message.bucket_mapping@[k])
                    < params.spec_NB(),
            message.openings@.finite(),
            message.openings@.len() == if params.spec_num_openings() <= commits@.len() {
                params.spec_num_openings()
            } else {
                commits@.len()
            },
            forall|i: usize| message.openings@.contains(i) ==> i < commits@.len(),
    {
        let indexes = count_up(commits.len());
        let chosen = choose_multiple(&indexes, params.num_openings(), rng);
        let mut bucket_mapping = count_up(params.NB());
        let ghost ordered = bucket_mapping@;
        shuffle(&mut bucket_mapping, rng);
        proof {
            lemma_chosen_distinct(indexes@, chosen@);
            lemma_shuffled(ordered, bucket_mapping@);
            chosen@.unique_seq_to_set();
            assert forall|x: usize| chosen@.to_set().contains(x) implies x < commits@.len() by {
                assert(indexes@.contains(x));
                let j = choose|j: int| 0 <= j < indexes@.len() && indexes@[j] == x;
                assert(indexes@[j] == j);
            }
        }
        Bob1::challenge_from(chosen, bucket_mapping)
    }

    /// The challenge that opens the chosen commitments and puts the closed
    /// ones into the bucket slots as the mapping says.
    pub fn challenge_from(chosen: Vec<usize>, mapping: Vec<usize>) -> (message: Message2)
        ensures
            message.openings@ == chosen@.to_set(),
            message.openings@.finite(),
            message.bucket_mapping@ == mapping@,
    {
        let mut openings: BTreeSet<usize> = BTreeSet::new();
        let mut i: usize = 0;
        while i < chosen.len()
            invariant
                i <= chosen@.len(),
                openings@ == chosen@.subrange(0, i as int).to_set(),
            decreases chosen@.len() - i,
        {
            insert_opening(&mut openings, chosen[i]);
            proof {
                let sofar = chosen@.subrange(0, i as int);
                let more = chosen@.subrange(0, i + 1);
                assert(more =~= sofar.push(chosen@[i as int]));
                assert forall|x: usize| more.to_set().contains(x) <==> sofar.to_set().insert(
                    chosen@[i as int],
                ).contains(x) by {
                    if more.contains(x) {
                        let j = choose|j: int| 0 <= j < more.len() && more[j] == x;
                        if j < i {
                            assert(sofar[j] == x);
                        }
                    }
                    if sofar.contains(x) {
                        let j = choose|j: int| 0 <= j < sofar.len() && sofar[j] == x;
                        assert(more[j] == x);
                    }
                    if x == chosen@[i as int] {
                        assert(more[i as int] == x);
                    }
                }
                assert(openings@ =~= more.to_set());
            }
            i += 1;
        }
        proof {
            assert(chosen@.subrange(0, chosen@.len() as int) =~= chosen@);
            vstd::seq_lib::seq_to_set_is_finite(chosen@);
        }
        Message2 { bucket_mapping: mapping, openings }
    }

    /// Takes the sender's commitments and challenges them. The message is
    /// refused unless it holds exactly M commitments.
    pub fn new(message: Message1, params: &Params) -> (result: Result<(Bob1, Message2), Error>)
        requires
            params.wf(),
        ensures
            message.commits@.len() != params.spec_M() ==> result == Err::<(Bob1, Message2), Error>(
                Error::WrongNumberOfCommitments,
            ),
            message.commits@.len() == params.spec_M() ==> match result {
                Ok((bob, challenge)) => {
                    &&& bob.wf(params)
                    &&& bob.commits() == message.commits@
                    &&& challenge.wf(params)
                    &&& challenge.bucket_mapping@ == bob.challenge().bucket_mapping@
                    &&& challenge.openings@ == bob.challenge().openings@
                },
                Err(_) => false,
            },
    {
        if message.commits.len() != params.M() {
            return Err(Error::WrongNumberOfCommitments);
        }
        let mut rng = fresh_generator();
        let message2 = Bob1::gen_message2(message.commits.as_slice(), params, &mut rng);
        proof {
            lemma_params_round_trip(*params);
        }
        let kept = Message2 {
            bucket_mapping: message2.bucket_mapping.clone(),
            openings: message2.openings.clone(),
        };
        assert(kept.bucket_mapping@ =~= message2.bucket_mapping@);
        Ok((Bob1 { commits: message.commits, message2: kept }, message2))
    }
}

/// The numbers 0, 1, …, n − 1.
fn count_up(n: usize) -> (numbers: Vec<usize>)
    ensures
        numbers@.len() == n,
        forall|i: int| 0 <= i < n ==> numbers@[i] == i,
        numbers@.no_duplicates(),
{
    let mut numbers: Vec<usize> = Vec::new();
    let mut i: usize = 0;
    while i < n
        invariant
            i <= n,
            numbers@.len() == i,
            forall|j: int| 0 <= j < i ==> numbers@[j] == j,
        decreases n - i,
    {
        numbers.push(i);
        i += 1;
    }
    numbers
}

/// Items chosen without repetition from distinct items are distinct, and
/// each is one of the items.
proof fn lemma_chosen_distinct(items: Seq<usize>, chosen: Seq<usize>)
    requires
        items.no_duplicates(),
        chosen.to_multiset().subset_of(items.to_multiset()),
    ensures
        chosen.no_duplicates(),
        forall|x: usize| chosen.contains(x) ==> items.contains(x),
{
    broadcast use vstd::seq_lib::group_to_multiset_ensures;
    broadcast use vstd::multiset::group_multiset_axioms;

    items.lemma_multiset_has_no_duplicates();
    assert forall|x: usize| chosen.to_multiset().contains(x) implies chosen.to_multiset().count(x)
        == 1 by {
        assert(chosen.to_multiset().count(x) <= items.to_multiset().count(x));
    }
    chosen.lemma_multiset_has_no_duplicates_conv();
    assert forall|x: usize| chosen.contains(x) implies items.contains(x) by {
        assert(chosen.to_multiset().count(x) <= items.to_multiset().count(x));
    }
}

/// A rearrangement of the numbers below n holds each of them once.
proof fn lemma_shuffled(ordered: Seq<usize>, shuffled: Seq<usize>)
    requires
        forall|i: int| 0 <= i < ordered.len() ==> ordered[i] == i,
        shuffled.to_multiset() == ordered.to_multiset(),
    ensures
        shuffled.len() == ordered.len(),
        shuffled.no_duplicates(),
        forall|k: int| 0 <= k < shuffled.len() ==> (#[trigger] shuffled[k]) < ordered.len(),
{
    broadcast use vstd::seq_lib::group_to_multiset_ensures;
    broadcast use vstd::multiset::group_multiset_axioms;

    assert(ordered.no_duplicates());
    ordered.to_multiset_ensures();
    shuffled.to_multiset_ensures();
    ordered.lemma_multiset_has_no_duplicates();
    shuffled.lemma_multiset_has_no_duplicates_conv();
    assert forall|k: int| 0 <= k < shuffled.len() implies (#[trigger] shuffled[k])
        < ordered.len() by {
        assert(shuffled.contains(shuffled[k]));
        assert(shuffled.to_multiset().count(shuffled[k]) > 0);
        assert(ordered.contains(shuffled[k]));
        let j = choose|j: int| 0 <= j < ordered.len() && ordered[j] == shuffled[k];
        assert(ordered[j] == j);
    }
}

/// `SliceRandom::choose_multiple` of rand on the generator: `amount` of the
/// items, or all where there are fewer, chosen without repetition and in
/// any order.
#[verifier::external_body]
fn choose_multiple(items: &Vec<usize>, amount: usize, rng: &mut rand::rngs::StdRng) -> (chosen: Vec<
    usize,
>)
    ensures
        amount <= items@.len() ==> chosen@.len() == amount,
        amount > items@.len() ==> chosen@.len() == items@.len(),
        chosen@.to_multiset().subset_of(items@.to_multiset()),
{
    items.choose_multiple(rng, amount).cloned().collect()
}

/// `SliceRandom::shuffle` of rand on the generator: the same items in any order.
#[verifier::external_body]
fn shuffle(items: &mut Vec<usize>, rng: &mut rand::rngs::StdRng)
    ensures
        final(items)@.to_multiset() == old(items)@.to_multiset(),
{
    items.shuffle(rng)
}

impl Bob2 {
    /// The entries kept, bucket by bucket.
    pub closed spec fn buckets(&self) -> Seq<Seq<Entry>> {
        Seq::new(self.verifiably_encrypted@.len(), |b: int| self.verifiably_encrypted@[b]@)
    }

    /// The number of buckets.
    pub fn bucket_count(&self) -> (count: usize)
        ensures
            count == self.buckets().len(),
    {
        self.verifiably_encrypted.len()
    }

    /// The receiver that holds the given entries, bucket by bucket.
    pub fn from_buckets(verifiably_encrypted: Vec<Vec<Entry>>) -> (bob: Bob2)
        ensures
            bob.buckets().len() == verifiably_encrypted@.len(),
            forall|b: int|
                0 <= b < verifiably_encrypted@.len() ==> #[trigger] bob.buckets()[b]
                    == verifiably_encrypted@[b]@,
    {
        Bob2 { verifiably_encrypted }
    }

    /// The secret that an entry holds for a decryption key. From an entry
    /// that an honest sender made for the key and a secret, it is that secret.
    pub fn decrypt_entry(entry: &Entry, decryption_key: &Scalar) -> (secret: Scalar)
        ensures
            secret.wf(),
            secret@ == entry_secret(*entry, decryption_key@),
            forall|y: nat|
                y < group_order() && #[trigger] honest_entry(*entry, decryption_key@, y) ==> secret@
                    == y,
    {
        let shared = entry.0.0.mul(decryption_key);
        let ri_mapped = entry.0.1.sub(&shared);
        let ri = map_G_to_Zq(ri_mapped, entry.2);
        let secret = entry.1.sub(&ri);
        proof {
            assert forall|y: nat|
                y < group_order() && #[trigger] honest_entry(
                    *entry,
                    decryption_key@,
                    y,
                ) implies secret@ == y by {
                let (r, r_prime, mapped) = choose|r: nat, r_prime: nat, mapped: Seq<u8>|
                    r_prime < group_order() && ristretto_decodes(mapped) && #[trigger] entry_made_of(
                        *entry,
                        decryption_key@,
                        y,
                        r,
                        r_prime,
                        mapped,
                    );
                assert(entry.0.0@ == base_mul(r_prime));
                assert(shared@ == ristretto_mul(r_prime, base_mul(decryption_key@)));
                assert(entry.0.1@ == ristretto_add(shared@, mapped));
                assert(ri_mapped@ == mapped);
                assert(ri@ == r);
                lemma_unpadded(r as int, y as int, group_order() as int);
            }
        }
        secret
    }

    /// Decrypts a bucket with the key that its encryptions were made for:
    /// the secret of the first entry that gives one with the expected image.
    /// Entries that give another are passed over; the decryption fails if
    /// none is left, as in a bucket that does not exist.
    pub fn decrypt_bucket_with_key(
        &self,
        ve_index: usize,
        decryption_key: Scalar,
        image_that_should_be_encrypted: Point,
        _params: &Params,
    ) -> (result: Result<Scalar, Error>)
        ensures
            match result {
                Ok(secret) => ve_index < self.buckets().len() && bucket_secret(
                    self.buckets()[ve_index as int],
                    decryption_key@,
                    image_that_should_be_encrypted@,
                    self.buckets()[ve_index as int].len(),
                ) == Some(secret@),
                Err(e) => e == Error::MaliciousEncryption && (ve_index < self.buckets().len()
                    ==> bucket_secret(
                    self.buckets()[ve_index as int],
                    decryption_key@,
                    image_that_should_be_encrypted@,
                    self.buckets()[ve_index as int].len(),
                ) is None),
            },
            forall|y: nat|
                y < group_order() && image_that_should_be_encrypted@ == #[trigger] base_mul(y)
                    && ve_index < self.buckets().len() && holds_honest_entry(
                    self.buckets()[ve_index as int],
                    decryption_key@,
                    y,
                ) ==> match result {
                    Ok(secret) => secret@ == y,
                    Err(_) => false,
                },
    {
        if ve_index >= self.verifiably_encrypted.len() {
            return Err(Error::MaliciousEncryption);
        }
        assert(self.buckets()[ve_index as int] == self.verifiably_encrypted@[ve_index as int]@);
        match Bob2::decrypt_entries(
            &self.verifiably_encrypted[ve_index],
            &decryption_key,
            &image_that_should_be_encrypted,
        ) {
            Some(secret) => Ok(secret),
            None => Err(Error::MaliciousEncryption),
        }
    }

    /// The secret of the first entry that gives one with the expected image
    /// for the decryption key, if any does. One entry that an honest sender
    /// made for the key and the secret with that image is enough to get
    /// that secret.
    pub fn decrypt_entries(bucket: &Vec<Entry>, decryption_key: &Scalar, image: &Point) -> (result:
        Option<Scalar>)
        ensures
            match result {
                Some(secret) => bucket_secret(bucket@, decryption_key@, image@, bucket@.len())
                    == Some(secret@),
                None => bucket_secret(bucket@, decryption_key@, image@, bucket@.len()) is None,
            },
            forall|y: nat|
                y < group_order() && image@ == #[trigger] base_mul(y) && holds_honest_entry(
                    bucket@,
                    decryption_key@,
                    y,
                ) ==> match result {
                    Some(secret) => secret@ == y,
                    None => false,
                },
    {
        let mut i: usize = 0;
        while i < bucket.len()
            invariant
                i <= bucket@.len(),
                bucket_secret(bucket@, decryption_key@, image@, i as nat) is None,
                forall|y: nat, t: int|
                    y < group_order() && image@ == #[trigger] base_mul(y) && 0 <= t < i
                        ==> !#[trigger] honest_entry(bucket@[t], decryption_key@, y),
            decreases bucket@.len() - i,
        {
            let preimage = Bob2::decrypt_entry(&bucket[i], decryption_key);
            let got_image = Point::base_mul(&preimage);
            if got_image.equals(image) {
                proof {
                    assert(bucket_secret(bucket@, decryption_key@, image@, (i + 1) as nat) == Some(
                        preimage@,
                    ));
                    lemma_bucket_secret_stays(
                        bucket@,
                        decryption_key@,
                        image@,
                        (i + 1) as nat,
                        bucket@.len(),
                    );
                }
                return Some(preimage);
            }
            i += 1;
        }
        None
    }
}

/// Once an entry gives a secret with the expected image, later entries do
/// not change the result.
proof fn lemma_bucket_secret_stays(
    bucket: Seq<Entry>,
    key: nat,
    image: Seq<u8>,
    upto: nat,
    later: nat,
)
    requires
        upto <= later,
        bucket_secret(bucket, key, image, upto) is Some,
    ensures
        bucket_secret(bucket, key, image, later) == bucket_secret(bucket, key, image, upto),
    decreases later,
{
    if upto < later {
        lemma_bucket_secret_stays(bucket, key, image, upto, (later - 1) as nat);
    }
}

/// Slot i of bucket b, among n buckets of size s, is slot b·s + i of the n·s
/// slots, and lies in bucket b.
pub proof fn lemma_slot_of_bucket(b: int, i: int, s: int, n: int)
    requires
        0 <= b < n,
        0 <= i < s,
    ensures
        0 <= b * s + i < n * s,
        (b * s + i) / s == b,
{
    assert(0 <= b * s + i < n * s) by (nonlinear_arith)
        requires
            0 <= b < n,
            0 <= i < s,
    ;
    vstd::arithmetic::div_mod::lemma_fundamental_div_mod_converse(b * s + i, s, b, i);
}

/// Once an opening is wrong, the same thing stays the first thing wrong
/// whatever follows.
proof fn lemma_openings_error_stays(
    commits: Seq<Commit>,
    opened: Seq<usize>,
    openings: Seq<Scalar>,
    h: Seq<u8>,
    upto: nat,
    later: nat,
)
    requires
        upto <= later,
        openings_error(commits, opened, openings, h, upto) is Some,
    ensures
        openings_error(commits, opened, openings, h, later) == openings_error(
            commits,
            opened,
            openings,
            h,
            upto,
        ),
    decreases later,
{
    if upto < later {
        lemma_openings_error_stays(commits, opened, openings, h, upto, (later - 1) as nat);
    }
}

/// Once a statement is one that a verifier does not take, the statements
/// are not all taken whatever follows.
proof fn lemma_statements_stay(
    commits: Seq<Commit>,
    challenge: &Message2,
    response: &Message3,
    keys: Seq<Point>,
    params: &Params,
    upto: nat,
    later: nat,
)
    requires
        upto <= later,
        !statements_admissible(commits, challenge, response, keys, params, upto),
    ensures
        !statements_admissible(commits, challenge, response, keys, params, later),
    decreases later,
{
    if upto < later {
        lemma_statements_stay(commits, challenge, response, keys, params, upto, (later - 1) as nat);
    }
}

/// Once a padded secret does not fit, the slots do not fit whatever follows.
proof fn lemma_slots_fit_stays(
    commits: Seq<Commit>,
    challenge: &Message2,
    response: &Message3,
    images: Seq<Point>,
    bucket_size: int,
    upto: nat,
    later: nat,
)
    requires
        upto <= later,
        !slots_fit(commits, challenge, response, images, bucket_size, upto),
    ensures
        !slots_fit(commits, challenge, response, images, bucket_size, later),
    decreases later,
{
    if upto < later {
        lemma_slots_fit_stays(
            commits,
            challenge,
            response,
            images,
            bucket_size,
            upto,
            (later - 1) as nat,
        );
    }
}

} // verus!
