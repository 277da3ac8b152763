//! The sender: commits to M one-time pads, then answers the receiver's
//! challenge with the openings asked for and one encryption for each bucket slot.
use vstd::prelude::*;
use crate::common::{lemma_params_round_trip, map_Zq_to_G, pad_for, pad_of, Params};
use crate::bob::slot_commit;
use crate::dleq::{
    domain_tag, lemma_prover_took_one_more, prove_eqaulity, prover_finish, prover_new,
    prover_took, statement, transcript_new,
};
use zkp::toolbox::prover::Prover;
use crate::error::Error;
use crate::group::{fresh_generator, group_order, ristretto_add, ristretto_mul, Point, Scalar};
use crate::messages::{
    closed_indices, count_openings, lemma_opened_count, lemma_openings_finite, lemma_partition,
    opened_indices, partition, Commit, Message1, Message2, Message3,
};

verus! {

/// The sender after its first message. It holds, for each commitment, the
/// secret (r, r′, P) that the commitment was made from.
pub struct Alice1 {
    secrets: Vec<(Scalar, Scalar, Point)>,
    commits: Vec<Commit>,
}

/// The secret behind the commitment that the challenge puts into bucket slot `k`.
pub open spec fn slot_secret(
    secrets: Seq<(Scalar, Scalar, Point)>,
    message: &Message2,
    k: int,
) -> (Scalar, Scalar, Point) {
    secrets[closed_indices(secrets.len(), message.openings@)[message.bucket_mapping@[k] as int] as int]
}

/// The encryption holds the point of the secret (r, r′, P) under the key K,
/// as r′·K + P, and the target padded with r.
pub open spec fn encrypts(
    encryption: (Point, Scalar),
    secret: (Scalar, Scalar, Point),
    key: Seq<u8>,
    target: nat,
) -> bool {
    &&& encryption.0@ == ristretto_add(ristretto_mul(secret.1@, key), secret.2@)
    &&& encryption.1@ == (secret.0@ + target) % group_order()
}

/// The response is the one that the secrets, the challenge, the targets and
/// the keys determine: the blindings r′ of the opened commitments in
/// ascending order, and for bucket slot k the encryption of target k / B
/// under key k / B with the secret that the challenge maps to the slot.
pub open spec fn responds(
    response: &Message3,
    secrets: Seq<(Scalar, Scalar, Point)>,
    message: &Message2,
    targets: Seq<Scalar>,
    keys: Seq<Point>,
    params: &Params,
) -> bool {
    let opened = opened_indices(secrets.len(), message.openings@);
    &&& response.openings@.len() == opened.len()
    &&& forall|j: int|
        0 <= j < opened.len() ==> (#[trigger] response.openings@[j])@ == secrets[opened[j] as int].1@
    &&& response.encryptions@.len() == params.spec_NB()
    &&& forall|k: int|
        0 <= k < params.spec_NB() ==> encrypts(
            #[trigger] response.encryptions@[k],
            slot_secret(secrets, message, k),
            keys[k / (params.bucket_size as int)]@,
            targets[k / (params.bucket_size as int)]@,
        )
}

/// The witnesses of the statements of the first `upto` bucket slots: the
/// blinding r′ of the secret that the challenge maps to each slot.
pub open spec fn slot_witnesses(
    secrets: Seq<(Scalar, Scalar, Point)>,
    message: &Message2,
    upto: nat,
) -> Seq<nat> {
    Seq::new(upto, |k: int| slot_secret(secrets, message, k).1@)
}

/// The statement that the sender proves of bucket slot `k`: that the
/// encryption of the slot holds, under the key of the slot's bucket, what
/// the commitment of the slot holds under the base of the parameters.
pub open spec fn sender_statement(
    commits: Seq<Commit>,
    message: &Message2,
    encryptions: Seq<(Point, Scalar)>,
    keys: Seq<Point>,
    params: &Params,
    k: int,
) -> (Seq<u8>, Seq<u8>, Seq<u8>, Seq<u8>) {
    let commit = slot_commit(commits, message, k);
    statement(
        encryptions[k].0@,
        keys[k / (params.bucket_size as int)]@,
        params.elgamal_base@,
        (commit.C.0@, commit.C.1@),
    )
}

/// The statements of the first `upto` bucket slots, in the order of the slots.
pub open spec fn sender_statements(
    commits: Seq<Commit>,
    message: &Message2,
    encryptions: Seq<(Point, Scalar)>,
    keys: Seq<Point>,
    params: &Params,
    upto: nat,
) -> Seq<(Seq<u8>, Seq<u8>, Seq<u8>, Seq<u8>)> {
    Seq::new(upto, |k: int| sender_statement(commits, message, encryptions, keys, params, k))
}

/// Every entry of the mapping before `upto` is below `limit`.
pub open spec fn in_range_before(mapping: Seq<usize>, limit: nat, upto: int) -> bool {
    forall|j: int| 0 <= j < upto ==> (#[trigger] mapping[j]) < limit
}

impl Alice1 {
    /// The secrets behind the commitments.
    pub closed spec fn secrets(&self) -> Seq<(Scalar, Scalar, Point)> {
        self.secrets@
    }

    /// The commitments sent.
    pub closed spec fn commits(&self) -> Seq<Commit> {
        self.commits@
    }

    /// The sender holds M commitments, each made from its secret under the
    /// base of the parameters.
    pub open spec fn wf(&self, params: &Params) -> bool {
        &&& self.secrets().len() == params.spec_M()
        &&& self.commits().len() == params.spec_M()
        &&& forall|i: int|
            0 <= i < self.secrets().len() ==> (#[trigger] self.secrets()[i]).0.wf()
                && self.secrets()[i].1.wf() && self.secrets()[i].2.wf()
        &&& forall|i: int|
            0 <= i < self.commits().len() ==> (#[trigger] self.commits()[i]).made_from(
                self.secrets()[i],
                params.elgamal_base@,
            )
    }

    /// The commitment to the pad r with the blinding r′ and the point P,
    /// given as the secret (r, r′, P), under the base h.
    pub fn commit(secret: &(Scalar, Scalar, Point), h: &Point) -> (commit: Commit)
        ensures
            commit.made_from(*secret, h@),
            commit.pad@ == pad_of(secret.2@, secret.0.encoding()),
    {
        let pad = pad_for(&secret.2, &secret.0);
        Commit {
            C: (Point::base_mul(&secret.1), h.mul(&secret.1).add(&secret.2)),
            R: Point::base_mul(&secret.0),
            pad,
        }
    }

    /// The sender that holds the given secrets, with its first message: the
    /// commitment to each secret, in the same order.
    pub fn from_secrets(secrets: Vec<(Scalar, Scalar, Point)>, params: &Params) -> (r: (
        Alice1,
        Message1,
    ))
        requires
            params.wf(),
            secrets@.len() == params.spec_M(),
        ensures
            r.0.wf(params),
            r.0.secrets() == secrets@,
            r.1.commits@ == r.0.commits(),
            forall|i: int|
                0 <= i < secrets@.len() ==> (#[trigger] r.1.commits@[i]).pad@ == pad_of(
                    secrets@[i].2@,
                    secrets@[i].0.encoding(),
                ),
    {
        let mut commits: Vec<Commit> = Vec::new();
        let mut sent: Vec<Commit> = Vec::new();
        let mut i: usize = 0;
        while i < secrets.len()
            invariant
                i <= secrets@.len(),
                commits@.len() == i,
                sent@ == commits@,
                forall|j: int|
                    0 <= j < i ==> (#[trigger] secrets@[j]).0.wf() && secrets@[j].1.wf()
                        && secrets@[j].2.wf(),
                forall|j: int|
                    0 <= j < i ==> (#[trigger] commits@[j]).made_from(
                        secrets@[j],
                        params.elgamal_base@,
                    ),
                forall|j: int|
                    0 <= j < i ==> (#[trigger] commits@[j]).pad@ == pad_of(
                        secrets@[j].2@,
                        secrets@[j].0.encoding(),
                    ),
            decreases secrets@.len() - i,
        {
            let secret = secrets[i];
            let commit = Alice1::commit(&secret, &params.elgamal_base);
            proof {
                use_type_invariant(&secret.0);
                use_type_invariant(&secret.1);
                use_type_invariant(&secret.2);
            }
            commits.push(commit);
            sent.push(commit);
            i += 1;
        }
        (Alice1 { secrets, commits }, Message1 { commits: sent })
    }

    /// A sender with M fresh secrets, and its first message.
    pub fn new(params: &Params) -> (r: (Alice1, Message1))
        requires
            params.wf(),
        ensures
            r.0.wf(params),
            r.1.commits@ == r.0.commits(),
    {
        let m = params.M();
        let mut rng = fresh_generator();
        let mut secrets: Vec<(Scalar, Scalar, Point)> = Vec::new();
        let mut i: usize = 0;
        while i < m
            invariant
                i <= m,
                secrets@.len() == i,
            decreases m - i,
        {
            let ri = Scalar::random_with(&mut rng);
            let (ri_mapped, _) = map_Zq_to_G(&ri);
            let ri_prime = Scalar::random_with(&mut rng);
            secrets.push((ri, ri_prime, ri_mapped));
            i += 1;
        }
        Alice1::from_secrets(secrets, params)
    }

    /// Answers the challenge: reveals the blinding of every commitment that
    /// the challenge opens, and fills every bucket slot with the encryption
    /// of its bucket's target under its bucket's key.
    ///
    /// The challenge is refused if it maps a slot outside of the NB closed
    /// commitments, if it does not name M − NB openings, or if it does not
    /// map exactly NB slots, in this order.
    pub fn receive_message(
        self,
        message: Message2,
        secrets_to_be_encrpted: &[Scalar],
        public_encryption_keys: &[Point],
        params: &Params,
    ) -> (result: Result<Message3, Error>)
        requires
            params.wf(),
            self.wf(params),
            secrets_to_be_encrpted@.len() >= params.n_encryptions,
            public_encryption_keys@.len() >= params.n_encryptions,
        ensures
            match result {
                Err(Error::BucketOutOfRange { index, limit }) => {
                    &&& limit == params.spec_NB()
                    &&& exists|k: int|
                        0 <= k < message.bucket_mapping@.len() && in_range_before(
                            message.bucket_mapping@,
                            params.spec_NB(),
                            k,
                        ) && #[trigger] message.bucket_mapping@[k] == index && index
                            >= params.spec_NB()
                },
                Err(Error::WrongNumberOfOpenings { expected, got }) => {
                    &&& in_range_before(
                        message.bucket_mapping@,
                        params.spec_NB(),
                        message.bucket_mapping@.len() as int,
                    )
                    &&& expected == params.spec_num_openings()
                    &&& got == message.openings@.len()
                    &&& expected != got
                },
                Err(Error::WrongMessageLength) => {
                    &&& in_range_before(
                        message.bucket_mapping@,
                        params.spec_NB(),
                        message.bucket_mapping@.len() as int,
                    )
                    &&& message.openings@.len() == params.spec_num_openings()
                    &&& message.bucket_mapping@.len() != params.spec_NB()
                },
                Err(_) => false,
                Ok(response) => {
                    &&& in_range_before(
                        message.bucket_mapping@,
                        params.spec_NB(),
                        message.bucket_mapping@.len() as int,
                    )
                    &&& message.openings@.len() == params.spec_num_openings()
                    &&& message.bucket_mapping@.len() == params.spec_NB()
                    &&& responds(
                        &response,
                        self.secrets(),
                        &message,
                        secrets_to_be_encrpted@,
                        public_encryption_keys@,
                        params,
                    )
                },
            },
    {
        let nb = params.NB();
        let bucket_size = params.bucket_size as usize;
        let mut k: usize = 0;
        while k < message.bucket_mapping.len()
            invariant
                k <= message.bucket_mapping@.len(),
                in_range_before(message.bucket_mapping@, nb as nat, k as int),
                nb == params.spec_NB(),
            decreases message.bucket_mapping@.len() - k,
        {
            let index = message.bucket_mapping[k];
            if index >= nb {
                return Err(Error::BucketOutOfRange { index, limit: nb });
            }
            k += 1;
        }
        let expected = params.num_openings();
        let got = count_openings(&message.openings);
        if got != expected {
            return Err(Error::WrongNumberOfOpenings { expected, got });
        }
        if message.bucket_mapping.len() != nb {
            return Err(Error::WrongMessageLength);
        }
        let (opened, closed) = partition(self.secrets.len(), &message.openings);
        proof {
            lemma_partition(self.secrets@.len(), message.openings@);
            lemma_opened_count(self.secrets@.len(), message.openings@);
            lemma_params_round_trip(*params);
        }
        let mut openings: Vec<Scalar> = Vec::new();
        let mut j: usize = 0;
        while j < opened.len()
            invariant
                j <= opened@.len(),
                openings@.len() == j,
                forall|i: int| 0 <= i < opened@.len() ==> (#[trigger] opened@[i]) < self.secrets@.len(),
                forall|i: int|
                    0 <= i < j ==> (#[trigger] openings@[i])@ == self.secrets@[opened@[i] as int].1@,
            decreases opened@.len() - j,
        {
            openings.push(self.secrets[opened[j]].1);
            j += 1;
        }
        let mut encryptions: Vec<(Point, Scalar)> = Vec::new();
        let mut k: usize = 0;
        while k < nb
            invariant
                k <= nb,
                nb == params.spec_NB(),
                nb == message.bucket_mapping@.len(),
                bucket_size == params.bucket_size,
                params.wf(),
                self.wf(params),
                secrets_to_be_encrpted@.len() >= params.n_encryptions,
                public_encryption_keys@.len() >= params.n_encryptions,
                in_range_before(message.bucket_mapping@, nb as nat, nb as int),
                closed@ == closed_indices(self.secrets@.len(), message.openings@),
                closed@.len() >= nb,
                forall|i: int| 0 <= i < closed@.len() ==> (#[trigger] closed@[i]) < self.secrets@.len(),
                encryptions@.len() == k,
                forall|i: int|
                    0 <= i < k ==> encrypts(
                        #[trigger] encryptions@[i],
                        slot_secret(self.secrets@, &message, i),
                        public_encryption_keys@[i / (params.bucket_size as int)]@,
                        secrets_to_be_encrpted@[i / (params.bucket_size as int)]@,
                    ),
            decreases nb - k,
        {
            let secret = self.secrets[closed[message.bucket_mapping[k]]];
            let ve_index = k / bucket_size;
            proof {
                lemma_bucket_of_slot(k as int, params.bucket_size as int, params.n_encryptions as int);
            }
            let ri_encryption = public_encryption_keys[ve_index].mul(&secret.1).add(&secret.2);
            let padded_secret = secret.0.add(&secrets_to_be_encrpted[ve_index]);
            encryptions.push((ri_encryption, padded_secret));
            k += 1;
        }
        let label = domain_tag();
        let mut transcript = transcript_new(label);
        let mut prover = prover_new(label, &mut transcript);
        self.state_slots(&mut prover, &message, &encryptions, public_encryption_keys, params);
        let proof = prover_finish(prover);
        Ok(Message3 { proof, encryptions, openings })
    }

    /// Hands the prover the statement of every bucket slot with its
    /// witness, in the order of the slots: for slot k, that the encryption
    /// of the slot and the commitment that the challenge maps to it hold
    /// the same point, with the blinding of that commitment as the witness.
    pub fn state_slots(
        &self,
        prover: &mut Prover<'_>,
        message: &Message2,
        encryptions: &Vec<(Point, Scalar)>,
        public_encryption_keys: &[Point],
        params: &Params,
    )
        requires
            params.wf(),
            self.wf(params),
            public_encryption_keys@.len() >= params.n_encryptions,
            message.bucket_mapping@.len() == params.spec_NB(),
            in_range_before(
                message.bucket_mapping@,
                params.spec_NB(),
                message.bucket_mapping@.len() as int,
            ),
            message.openings@.len() == params.spec_num_openings(),
            encryptions@.len() == params.spec_NB(),
        ensures
            prover_took(
                *old(prover),
                *final(prover),
                slot_witnesses(self.secrets(), message, params.spec_NB()),
                sender_statements(
                    self.commits(),
                    message,
                    encryptions@,
                    public_encryption_keys@,
                    params,
                    params.spec_NB(),
                ),
            ),
    {
        let nb = params.NB();
        let bucket_size = params.bucket_size as usize;
        let (_, closed) = partition(self.secrets.len(), &message.openings);
        proof {
            lemma_openings_finite(&message.openings);
            lemma_partition(self.secrets@.len(), message.openings@);
            lemma_opened_count(self.secrets@.len(), message.openings@);
            lemma_params_round_trip(*params);
        }
        let ghost before = *prover;
        assert(slot_witnesses(self.secrets@, message, 0) =~= Seq::empty());
        assert(sender_statements(
            self.commits@,
            message,
            encryptions@,
            public_encryption_keys@,
            params,
            0,
        ) =~= Seq::empty());
        let mut k: usize = 0;
        while k < nb
            invariant
                k <= nb,
                nb == params.spec_NB(),
                nb == message.bucket_mapping@.len(),
                bucket_size == params.bucket_size,
                params.wf(),
                self.wf(params),
                public_encryption_keys@.len() >= params.n_encryptions,
                encryptions@.len() == nb,
                in_range_before(message.bucket_mapping@, nb as nat, nb as int),
                closed@ == closed_indices(self.secrets@.len(), message.openings@),
                closed@.len() >= nb,
                forall|i: int| 0 <= i < closed@.len() ==> (#[trigger] closed@[i]) < self.secrets@.len(),
                prover_took(
                    before,
                    *prover,
                    slot_witnesses(self.secrets@, message, k as nat),
                    sender_statements(
                        self.commits@,
                        message,
                        encryptions@,
                        public_encryption_keys@,
                        params,
                        k as nat,
                    ),
                ),
            decreases nb - k,
        {
            let index = closed[message.bucket_mapping[k]];
            let commit = self.commits[index];
            let secret = self.secrets[index];
            proof {
                lemma_bucket_of_slot(k as int, params.bucket_size as int, params.n_encryptions as int);
            }
            let ghost middle = *prover;
            prove_eqaulity(
                prover,
                secret.1,
                encryptions[k].0,
                public_encryption_keys[k / bucket_size],
                params.elgamal_base,
                commit.C,
            );
            proof {
                let witnesses = slot_witnesses(self.secrets@, message, k as nat);
                let sofar = sender_statements(
                    self.commits@,
                    message,
                    encryptions@,
                    public_encryption_keys@,
                    params,
                    k as nat,
                );
                let one = sender_statement(
                    self.commits@,
                    message,
                    encryptions@,
                    public_encryption_keys@,
                    params,
                    k as int,
                );
                lemma_prover_took_one_more(
                    before,
                    middle,
                    *prover,
                    witnesses,
                    sofar,
                    secret.1@,
                    one,
                );
                assert(slot_witnesses(self.secrets@, message, (k + 1) as nat) =~= witnesses.push(
                    secret.1@,
                ));
                assert(sender_statements(
                    self.commits@,
                    message,
                    encryptions@,
                    public_encryption_keys@,
                    params,
                    (k + 1) as nat,
                ) =~= sofar.push(one));
            }
            k += 1;
        }
    }
}

/// Slot k of n·b slots lies in bucket k / b, one of the n buckets.
pub proof fn lemma_bucket_of_slot(k: int, b: int, n: int)
    requires
        b >= 1,
        0 <= k < n * b,
    ensures
        0 <= k / b < n,
{
    vstd::arithmetic::div_mod::lemma_div_pos_is_pos(k, b);
    assert(k / b < n) by (nonlinear_arith)
        requires
            b >= 1,
            0 <= k < n * b,
    ;
}

} // verus!
