use rand::rngs::StdRng;
use rand::SeedableRng;
use dlc_venc_adaptor::group::Scalar;
use dlc_venc_adaptor::poly::ScalarPoly;
use dlc_venc_adaptor::threshold::interpolate_at_zero;

fn rng() -> StdRng {
    StdRng::from_entropy()
}

fn points_of(f: &ScalarPoly, xs: &[u32]) -> Vec<(u32, Scalar)> {
    xs.iter().map(|x| (*x, f.eval(*x))).collect()
}

#[test]
fn interpolation_gives_the_constant_term() {
    let f = ScalarPoly::new(vec![Scalar::from_u64(3), Scalar::from_u64(2), Scalar::from_u64(1)]);
    assert_eq!(interpolate_at_zero(&points_of(&f, &[1, 2, 5])), Some(Scalar::from_u64(3)));
    assert_eq!(interpolate_at_zero(&points_of(&f, &[5, 1, 2])), Some(Scalar::from_u64(3)));
    assert_eq!(interpolate_at_zero(&points_of(&f, &[7, 9, 4, 1])), Some(Scalar::from_u64(3)));
    assert_eq!(interpolate_at_zero(&points_of(&f, &[0, 9, 4])), Some(Scalar::from_u64(3)));
}

#[test]
fn interpolation_of_random_polynomials() {
    for t in 1..6usize {
        let f = ScalarPoly::random(t, &mut rng());
        let xs: Vec<u32> = (0..t as u32).map(|j| 3 * j + 1).collect();
        assert_eq!(interpolate_at_zero(&points_of(&f, &xs)), Some(f.eval(0)));
        let more: Vec<u32> = (0..t as u32 + 2).map(|j| u32::MAX - 7 * j).collect();
        assert_eq!(interpolate_at_zero(&points_of(&f, &more)), Some(f.eval(0)));
    }
}

#[test]
fn interpolation_of_two_points_by_hand() {
    // The line through (1, 10) and (3, 4) is 13 − 3x.
    let points = [(1u32, Scalar::from_u64(10)), (3u32, Scalar::from_u64(4))];
    assert_eq!(interpolate_at_zero(&points), Some(Scalar::from_u64(13)));
    // The line through (2, 1) and (4, 2) is x / 2.
    let points = [(2u32, Scalar::from_u64(1)), (4u32, Scalar::from_u64(2))];
    assert_eq!(interpolate_at_zero(&points), Some(Scalar::zero()));
}

#[test]
fn interpolation_of_few_points() {
    assert_eq!(interpolate_at_zero(&[]), Some(Scalar::zero()));
    assert_eq!(interpolate_at_zero(&[(9, Scalar::from_u64(77))]), Some(Scalar::from_u64(77)));
}

#[test]
fn too_few_points_give_another_value() {
    let f = ScalarPoly::random(3, &mut rng());
    assert_ne!(interpolate_at_zero(&points_of(&f, &[1, 2])), Some(f.eval(0)));
}

#[test]
fn repeated_nodes_are_refused() {
    let f = ScalarPoly::random(3, &mut rng());
    assert_eq!(interpolate_at_zero(&points_of(&f, &[1, 2, 1])), None);
    assert_eq!(interpolate_at_zero(&points_of(&f, &[4, 4])), None);
}

use dlc_venc_adaptor::alice::Alice1;
use dlc_venc_adaptor::bob::{Bob1, Bob2};
use dlc_venc_adaptor::common::Params;
use dlc_venc_adaptor::error::Error;
use dlc_venc_adaptor::group::Point;
use dlc_venc_adaptor::oracle::Oracle;
use dlc_venc_adaptor::poly::PointPoly;
use dlc_venc_adaptor::threshold::{
    anticipated_key, compute_pad, recover_masked_share, recover_outcome, recover_secret,
    share_image, share_polynomial, shares_of,
};

#[test]
fn anticipated_key_is_opened_by_the_attestation() {
    let oracle = Oracle::random(2, &mut rng());
    let nonce = oracle.public_nonce()[0];
    for index in [0u32, 1, 7, u32::MAX] {
        let key = anticipated_key(&oracle.public_key(), &nonce, index);
        assert_eq!(Point::base_mul(&oracle.attest_outcome(index).unwrap()), key);
    }
    let attested = oracle.attest(1);
    assert_eq!(
        Point::base_mul(&attested[0]),
        anticipated_key(&oracle.public_key(), &nonce, 1)
    );
    let attested = oracle.attest(0);
    assert_eq!(
        Point::base_mul(&attested[0]),
        anticipated_key(&oracle.public_key(), &nonce, 0)
    );
}

#[test]
fn anticipated_key_by_hand() {
    let key = Point::random();
    let nonce = Point::random();
    assert_eq!(anticipated_key(&key, &nonce, 0), key.add(&nonce));
    assert_eq!(anticipated_key(&key, &nonce, 2), key.add(&nonce).add(&nonce).add(&nonce));
}

#[test]
fn shares_are_the_values_of_the_polynomial() {
    let secret = Scalar::from_u64(42);
    let poly = share_polynomial(secret, 3, &mut rng());
    assert_eq!(poly.poly_len(), 3);
    assert_eq!(poly.eval(0), secret);
    let shares = shares_of(&poly, 5);
    assert_eq!(shares.len(), 5);
    for j in 0..5u32 {
        assert_eq!(shares[j as usize], poly.eval(j + 1));
    }
    assert_eq!(share_polynomial(secret, 0, &mut rng()).poly_len(), 1);
    assert_eq!(share_polynomial(secret, 1, &mut rng()).poly_len(), 1);
    assert_eq!(shares_of(&share_polynomial(secret, 1, &mut rng()), 3), vec![secret, secret, secret]);
    assert!(shares_of(&poly, 0).is_empty());
    let fixed = ScalarPoly::new(vec![Scalar::from_u64(5), Scalar::from_u64(3)]);
    assert_eq!(
        shares_of(&fixed, 3),
        vec![Scalar::from_u64(8), Scalar::from_u64(11), Scalar::from_u64(14)]
    );
}

#[test]
fn share_image_is_the_image_of_the_share() {
    let secret = Scalar::random();
    let poly = share_polynomial(secret, 4, &mut rng());
    let mut committed = poly.to_point_poly();
    committed.pop_front();
    assert_eq!(committed.poly_len(), 3);
    let shares = shares_of(&poly, 6);
    for j in 0..6u32 {
        assert_eq!(
            share_image(&committed, &Point::base_mul(&secret), j + 1),
            Point::base_mul(&shares[j as usize])
        );
    }
    assert_eq!(
        share_image(&PointPoly::new(vec![]), &Point::generator(), 9),
        Point::generator()
    );
}

#[test]
fn any_threshold_many_shares_recover_the_secret() {
    let secret = Scalar::random();
    let image = Point::base_mul(&secret);
    let shares = shares_of(&share_polynomial(secret, 3, &mut rng()), 5);
    let share = |j: usize| ((j + 1) as u32, shares[j]);
    assert_eq!(recover_secret(&[share(0), share(1), share(2)], 3, &image), Ok(secret));
    assert_eq!(recover_secret(&[share(4), share(0), share(3)], 3, &image), Ok(secret));
    assert_eq!(recover_secret(&[share(1), share(3), share(2), share(0)], 3, &image), Ok(secret));
}

#[test]
fn withheld_share_leaves_not_enough() {
    let secret = Scalar::random();
    let image = Point::base_mul(&secret);
    let shares = shares_of(&share_polynomial(secret, 3, &mut rng()), 5);
    let share = |j: usize| ((j + 1) as u32, shares[j]);
    let error = recover_secret(&[share(0), share(1)], 3, &image).err().unwrap();
    assert_eq!(error, Error::NotEnoughShares);
    assert_eq!(error.message(), "not enough shares");
    assert_eq!(recover_secret(&[], 1, &image), Err(Error::NotEnoughShares));
    assert_eq!(
        recover_secret(&[share(0), share(1), share(0)], 3, &image),
        Err(Error::NotEnoughShares)
    );
}

#[test]
fn wrong_share_gives_a_secret_without_the_image() {
    let secret = Scalar::random();
    let image = Point::base_mul(&secret);
    let shares = shares_of(&share_polynomial(secret, 3, &mut rng()), 5);
    let points = [(1u32, shares[0]), (2u32, shares[1].add(&Scalar::one())), (3u32, shares[2])];
    let error = recover_secret(&points, 3, &image).err().unwrap();
    assert_eq!(error, Error::WrongSecret);
    assert_eq!(error.message(), "the shares gave a secret without the expected image");
    let points = [(1u32, shares[0]), (2u32, shares[2]), (3u32, shares[1])];
    assert_eq!(recover_secret(&points, 3, &image), Err(Error::WrongSecret));
    assert_eq!(
        recover_secret(&[(1, shares[0]), (2, shares[1])], 2, &image),
        Err(Error::WrongSecret)
    );
    assert_eq!(recover_secret(&[], 0, &image), Err(Error::WrongSecret));
    assert_eq!(recover_secret(&[], 0, &Point::base_mul(&Scalar::zero())), Ok(Scalar::zero()));
}

#[test]
fn pad_is_the_sum_of_the_masks_along_the_bits() {
    let masks: Vec<(Scalar, Scalar)> = (0..4u64)
        .map(|b| (Scalar::from_u64(10u64.pow(b as u32)), Scalar::from_u64(2 * 10u64.pow(b as u32))))
        .collect();
    assert_eq!(compute_pad(&masks, 0b0000), Scalar::from_u64(1111));
    assert_eq!(compute_pad(&masks, 0b0001), Scalar::from_u64(1112));
    assert_eq!(compute_pad(&masks, 0b0110), Scalar::from_u64(1221));
    assert_eq!(compute_pad(&masks, 0b1111), Scalar::from_u64(2222));
    assert_eq!(compute_pad(&masks, 0xffff_fff8), Scalar::from_u64(2111));
    assert_eq!(compute_pad(&[], 5), Scalar::zero());
    let many: Vec<(Scalar, Scalar)> = (0..40).map(|_| (Scalar::one(), Scalar::from_u64(3))).collect();
    assert_eq!(compute_pad(&many, u32::MAX), Scalar::from_u64(32 * 3 + 8));
}

struct Run {
    params: Params,
    bob: Bob2,
}

fn run(targets: &[Scalar], images: &[Point], keys: &[Point]) -> Run {
    let params = Params {
        closed_proportion: 700,
        bucket_size: 2,
        elgamal_base: Point::random(),
        n_encryptions: targets.len(),
    };
    assert!(params.is_valid());
    let (alice, m1) = Alice1::new(&params);
    let (bob, m2) = Bob1::new(m1, &params).unwrap();
    let m3 = alice.receive_message(m2, targets, keys, &params).unwrap();
    let bob = bob.receive_message(m3, images, keys, &params).unwrap();
    Run { params, bob }
}

#[test]
fn threshold_of_oracles_recovers_the_outcome() {
    let (n_oracles, threshold, n_outcomes) = (5usize, 3usize, 8usize);
    let oracles: Vec<Oracle> = (0..n_oracles).map(|_| Oracle::random(2, &mut rng())).collect();
    let secrets: Vec<Scalar> = (0..n_outcomes).map(|_| Scalar::random()).collect();
    let secret_images: Vec<Point> = secrets.iter().map(Point::base_mul).collect();

    let mut targets = Vec::new();
    let mut keys = Vec::new();
    let mut polys = Vec::new();
    for outcome in 0..n_outcomes {
        let poly = share_polynomial(secrets[outcome], threshold, &mut rng());
        targets.extend(shares_of(&poly, n_oracles as u32));
        for oracle in &oracles {
            keys.push(anticipated_key(
                &oracle.public_key(),
                &oracle.public_nonce()[0],
                outcome as u32,
            ));
        }
        let mut committed = poly.to_point_poly();
        committed.pop_front();
        polys.push(committed);
    }
    let share_images = |outcome: usize| -> Vec<Point> {
        (0..n_oracles)
            .map(|j| share_image(&polys[outcome], &secret_images[outcome], j as u32 + 1))
            .collect()
    };
    let images: Vec<Point> = (0..n_outcomes).flat_map(|outcome| share_images(outcome)).collect();
    let run = run(&targets, &images, &keys);

    for (outcome, attesting) in [(0usize, [0usize, 1, 2]), (3, [4, 1, 3]), (7, [2, 3, 4])] {
        let attestations: Vec<(usize, Scalar)> = attesting
            .iter()
            .map(|j| (*j, oracles[*j].attest_outcome(outcome as u32).unwrap()))
            .collect();
        let recovered = recover_outcome(
            &run.bob,
            outcome,
            n_oracles,
            &attestations,
            &share_images(outcome),
            threshold,
            &secret_images[outcome],
            &run.params,
        );
        assert_eq!(recovered, Ok(secrets[outcome]));
        let recovered = recover_outcome(
            &run.bob,
            outcome,
            n_oracles,
            &attestations[..2],
            &share_images(outcome),
            threshold,
            &secret_images[outcome],
            &run.params,
        );
        assert_eq!(recovered, Err(Error::NotEnoughShares));
    }
}

#[test]
fn attestations_that_open_nothing_do_not_count() {
    let (n_oracles, threshold) = (3usize, 2usize);
    let oracles: Vec<Oracle> = (0..n_oracles).map(|_| Oracle::random(2, &mut rng())).collect();
    let secret = Scalar::random();
    let secret_image = Point::base_mul(&secret);
    let poly = share_polynomial(secret, threshold, &mut rng());
    let targets = shares_of(&poly, n_oracles as u32);
    let keys: Vec<Point> = oracles
        .iter()
        .map(|o| anticipated_key(&o.public_key(), &o.public_nonce()[0], 0))
        .collect();
    let images: Vec<Point> = targets.iter().map(Point::base_mul).collect();
    let run = run(&targets, &images, &keys);
    let attest = |j: usize| oracles[j].attest_outcome(0).unwrap();

    let wrong_outcome = oracles[1].attest_outcome(1).unwrap();
    let recover = |attestations: &[(usize, Scalar)]| {
        recover_outcome(&run.bob, 0, n_oracles, attestations, &images, threshold, &secret_image, &run.params)
    };
    assert_eq!(recover(&[(0, attest(0)), (1, wrong_outcome)]), Err(Error::NotEnoughShares));
    assert_eq!(recover(&[(0, attest(0)), (1, wrong_outcome), (2, attest(2))]), Ok(secret));
    assert_eq!(recover(&[(0, attest(0)), (7, attest(1))]), Err(Error::NotEnoughShares));
    assert_eq!(recover(&[(0, attest(0)), (0, attest(0))]), Err(Error::NotEnoughShares));
    assert_eq!(recover(&[(2, attest(2)), (1, attest(1))]), Ok(secret));
    assert_eq!(
        recover_outcome(&run.bob, 1, n_oracles, &[(0, attest(0)), (1, attest(1))], &images, threshold, &secret_image, &run.params),
        Err(Error::NotEnoughShares)
    );
}

#[test]
fn bitwise_attestation_recovers_the_outcome() {
    let (n_outcomes, n_oracles, threshold, outcome) = (1024u32, 2usize, 2usize, 517u32);
    let oracles: Vec<Oracle> = (0..n_oracles).map(|_| Oracle::random(n_outcomes, &mut rng())).collect();
    let n_bits = oracles[0].public_nonce().len();
    assert_eq!(n_bits, 10);
    let secrets: Vec<Scalar> = (0..n_outcomes).map(|_| Scalar::random()).collect();

    // One bucket for each oracle, bit position and bit value, holding a mask.
    let masks: Vec<Vec<(Scalar, Scalar)>> = (0..n_oracles)
        .map(|_| (0..n_bits).map(|_| (Scalar::random(), Scalar::random())).collect())
        .collect();
    let mut targets = Vec::new();
    let mut keys = Vec::new();
    for (o, oracle) in oracles.iter().enumerate() {
        for b in 0..n_bits {
            for value in 0..2u32 {
                targets.push(if value == 1 { masks[o][b].1 } else { masks[o][b].0 });
                keys.push(anticipated_key(&oracle.public_key(), &oracle.public_nonce()[b], value));
            }
        }
    }
    let images: Vec<Point> = targets.iter().map(Point::base_mul).collect();

    // For each oracle, the table of its shares of every outcome's secret, each under its pad.
    let polys: Vec<ScalarPoly> = secrets.iter().map(|s| share_polynomial(*s, threshold, &mut rng())).collect();
    let tables: Vec<Vec<Scalar>> = (0..n_oracles)
        .map(|o| {
            (0..n_outcomes)
                .map(|i| polys[i as usize].eval(o as u32 + 1).add(&compute_pad(&masks[o], i)))
                .collect()
        })
        .collect();

    let run = run(&targets, &images, &keys);

    let mask_images: Vec<Vec<(Point, Point)>> = masks
        .iter()
        .map(|of_oracle| {
            of_oracle.iter().map(|(zero, one)| (Point::base_mul(zero), Point::base_mul(one))).collect()
        })
        .collect();
    let mut shares = Vec::new();
    for (o, oracle) in oracles.iter().enumerate() {
        let attested = oracle.attest(outcome);
        let share = recover_masked_share(
            &run.bob,
            o,
            outcome,
            &attested,
            &mask_images[o],
            &tables[o][outcome as usize],
            &run.params,
        )
        .unwrap();
        assert_eq!(share, polys[outcome as usize].eval(o as u32 + 1));
        shares.push((o as u32 + 1, share));

        let other = oracle.attest(outcome ^ 4);
        assert_eq!(
            recover_masked_share(
                &run.bob,
                o,
                outcome,
                &other,
                &mask_images[o],
                &tables[o][outcome as usize],
                &run.params,
            ),
            Err(Error::MaliciousEncryption)
        );
        assert_eq!(
            recover_masked_share(
                &run.bob,
                o,
                outcome,
                &attested,
                &mask_images[o][..9],
                &tables[o][outcome as usize],
                &run.params,
            ),
            Err(Error::WrongMessageLength)
        );
        assert_eq!(
            recover_masked_share(
                &run.bob,
                o + 2,
                outcome,
                &attested,
                &mask_images[o],
                &tables[o][outcome as usize],
                &run.params,
            ),
            Err(Error::MaliciousEncryption)
        );
    }
    let image = Point::base_mul(&secrets[outcome as usize]);
    assert_eq!(recover_secret(&shares, threshold, &image), Ok(secrets[outcome as usize]));
    assert_eq!(recover_secret(&shares[..1], threshold, &image), Err(Error::NotEnoughShares));
}
