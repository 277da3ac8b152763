use dlc_venc_adaptor::common::{
    compute_optimal_params, map_G_to_Zq, map_Zq_to_G, pad_for, Candidate, Params,
};
use dlc_venc_adaptor::group::{Point, Scalar};
use sha2::{Digest, Sha256};

fn params(closed_proportion: u16, bucket_size: u8, n_encryptions: usize) -> Params {
    Params { closed_proportion, bucket_size, elgamal_base: Point::generator(), n_encryptions }
}

#[test]
fn derived_sizes() {
    let p = params(500, 30, 1);
    assert_eq!((p.NB(), p.M(), p.num_openings()), (30, 60, 30));
    let p = params(726, 9, 16);
    assert_eq!(p.NB(), 144);
    assert_eq!(p.M(), 199);
    assert_eq!(p.num_openings(), 55);
    let p = params(1000, 4, 5);
    assert_eq!((p.NB(), p.M(), p.num_openings()), (20, 20, 0));
    let p = params(1, 1, 1);
    assert_eq!((p.NB(), p.M(), p.num_openings()), (1, 1000, 999));
    let p = params(750, 3, 1);
    assert_eq!((p.NB(), p.M(), p.num_openings()), (3, 4, 1));
    let p = params(751, 3, 1);
    assert_eq!((p.NB(), p.M(), p.num_openings()), (3, 4, 1));
    let p = params(749, 3, 1);
    assert_eq!((p.NB(), p.M(), p.num_openings()), (3, 5, 2));
}

#[test]
fn openings_and_closed_make_up_all_commitments() {
    for closed_proportion in [1u16, 499, 500, 501, 726, 998, 1000] {
        for bucket_size in [1u8, 2, 30, 255] {
            for n_encryptions in [0usize, 1, 2, 16, 1000] {
                let p = params(closed_proportion, bucket_size, n_encryptions);
                assert!(p.is_valid());
                assert_eq!(p.NB(), n_encryptions * bucket_size as usize);
                assert_eq!(p.num_openings() + p.NB(), p.M());
                assert!(p.M() * closed_proportion as usize >= p.NB() * 1000);
                assert!(p.M() == 0 || (p.M() - 1) * (closed_proportion as usize) < p.NB() * 1000);
            }
        }
    }
}

#[test]
fn ill_formed_parameters_are_told() {
    assert!(!params(0, 3, 1).is_valid());
    assert!(!params(1001, 3, 1).is_valid());
    assert!(!params(500, 0, 1).is_valid());
    assert!(!params(1, 255, usize::MAX).is_valid());
    assert!(!params(999, 2, usize::MAX).is_valid());
    assert!(params(1000, 1, usize::MAX).is_valid());
    assert!(params(500, 3, 1).is_valid());
}

#[test]
fn pad_round_trip() {
    for _ in 0..20 {
        let r = Scalar::random();
        let (point, pad) = map_Zq_to_G(&r);
        assert_eq!(map_G_to_Zq(point, pad), r);
    }
    let (point, pad) = map_Zq_to_G(&Scalar::zero());
    assert_eq!(map_G_to_Zq(point, pad), Scalar::zero());
}

#[test]
fn pad_is_the_hash_xored_with_the_scalar() {
    let point = Point::random();
    let digest: [u8; 32] = Sha256::digest(&point.to_bytes()).into();
    assert_eq!(pad_for(&point, &Scalar::zero()), digest);
    let r = Scalar::from_u64(0x1234);
    let mut expected = digest;
    expected[0] ^= 0x34;
    expected[1] ^= 0x12;
    assert_eq!(pad_for(&point, &r), expected);
    assert_eq!(map_G_to_Zq(point, expected), r);
    assert_eq!(map_G_to_Zq(point, digest), Scalar::zero());
}

#[test]
fn pad_of_the_generator() {
    let digest: [u8; 32] = Sha256::digest(&Point::generator().to_bytes()).into();
    assert_eq!(pad_for(&Point::generator(), &Scalar::zero()), digest);
    assert_ne!(digest, Point::generator().to_bytes());
    assert_eq!(
        map_G_to_Zq(Point::generator(), [0u8; 32]),
        Scalar::from_bytes_mod_order(digest)
    );
}

#[test]
fn another_point_uncovers_another_scalar() {
    let r = Scalar::random();
    let (_, pad) = map_Zq_to_G(&r);
    assert_ne!(map_G_to_Zq(Point::random(), pad), r);
}

#[test]
fn one_encryption_takes_half_and_the_security_parameter() {
    assert_eq!(compute_optimal_params(30, 1, &[]), Some((500, 30)));
    assert_eq!(compute_optimal_params(0, 1, &[]), Some((500, 0)));
    let ignored = [Candidate { closed_proportion: 600, bucket_size: 1 }];
    assert_eq!(compute_optimal_params(255, 1, &ignored), Some((500, 255)));
}

#[test]
fn cheapest_candidate_is_chosen() {
    let candidates = [
        Candidate { closed_proportion: 500, bucket_size: 7 },
        Candidate { closed_proportion: 600, bucket_size: 8 },
        Candidate { closed_proportion: 700, bucket_size: 9 },
        Candidate { closed_proportion: 726, bucket_size: 9 },
        Candidate { closed_proportion: 750, bucket_size: 10 },
    ];
    assert_eq!(compute_optimal_params(30, 16, &candidates), Some((726, 9)));
}

#[test]
fn first_of_the_cheapest_is_chosen() {
    let candidates = [
        Candidate { closed_proportion: 600, bucket_size: 6 },
        Candidate { closed_proportion: 500, bucket_size: 5 },
        Candidate { closed_proportion: 700, bucket_size: 7 },
    ];
    assert_eq!(compute_optimal_params(30, 10, &candidates), Some((600, 6)));
}

#[test]
fn inadmissible_candidates_are_passed_over() {
    let candidates = [
        Candidate { closed_proportion: 499, bucket_size: 1 },
        Candidate { closed_proportion: 999, bucket_size: 1 },
        Candidate { closed_proportion: 900, bucket_size: 1 },
        Candidate { closed_proportion: 800, bucket_size: 20 },
    ];
    assert_eq!(compute_optimal_params(30, 5, &candidates), Some((800, 20)));
    assert_eq!(compute_optimal_params(30, 10, &candidates), Some((900, 1)));
    assert_eq!(compute_optimal_params(30, 4, &candidates), None);
    assert_eq!(compute_optimal_params(30, 0, &candidates), None);
    assert_eq!(compute_optimal_params(30, 2, &[]), None);
}

#[test]
fn two_encryptions_admit_one_half_only() {
    let candidates = [
        Candidate { closed_proportion: 501, bucket_size: 1 },
        Candidate { closed_proportion: 500, bucket_size: 16 },
    ];
    assert_eq!(compute_optimal_params(30, 2, &candidates), Some((500, 16)));
}

#[test]
fn cost_is_rounded_up() {
    let candidates = [
        Candidate { closed_proportion: 700, bucket_size: 3 },
        Candidate { closed_proportion: 600, bucket_size: 3 },
        Candidate { closed_proportion: 699, bucket_size: 3 },
    ];
    assert_eq!(compute_optimal_params(30, 7, &candidates), Some((700, 3)));
    let candidates = [
        Candidate { closed_proportion: 699, bucket_size: 3 },
        Candidate { closed_proportion: 700, bucket_size: 3 },
    ];
    assert_eq!(compute_optimal_params(30, 7, &candidates), Some((700, 3)));
    let candidates = [
        Candidate { closed_proportion: 667, bucket_size: 2 },
        Candidate { closed_proportion: 700, bucket_size: 2 },
    ];
    assert_eq!(compute_optimal_params(30, 5, &candidates), Some((667, 2)));
}

#[test]
fn huge_workloads_do_not_overflow() {
    let candidates = [
        Candidate { closed_proportion: 998, bucket_size: 255 },
        Candidate { closed_proportion: 500, bucket_size: 254 },
    ];
    assert_eq!(compute_optimal_params(255, usize::MAX, &candidates), Some((998, 255)));
}
