use rand::rngs::StdRng;
use rand::SeedableRng;
use dlc_venc_adaptor::group::{Point, Scalar};
use dlc_venc_adaptor::poly::ScalarPoly;

fn rng() -> StdRng {
    StdRng::from_entropy()
}

fn poly(coefficients: &[u64]) -> ScalarPoly {
    ScalarPoly::new(coefficients.iter().map(|a| Scalar::from_u64(*a)).collect())
}

#[test]
fn scalar_poly_eval() {
    let f = poly(&[3, 2, 1]);
    assert_eq!(f.eval(0), Scalar::from_u64(3));
    assert_eq!(f.eval(1), Scalar::from_u64(6));
    assert_eq!(f.eval(5), Scalar::from_u64(38));
    assert_eq!(
        f.eval(u32::MAX),
        Scalar::from_u64(3 + 2 * 4294967295).add(&Scalar::from_u64(4294967295 * 4294967295))
    );
    assert_eq!(poly(&[9]).eval(1234), Scalar::from_u64(9));
    assert_eq!(poly(&[]).eval(7), Scalar::zero());
    assert_eq!(poly(&[0, 0, 0, 1]).eval(3), Scalar::from_u64(27));
}

#[test]
fn scalar_poly_eval_wraps_around_the_order() {
    let minus_one = Scalar::zero().sub(&Scalar::one());
    let f = ScalarPoly::new(vec![Scalar::from_u64(10), minus_one]);
    assert_eq!(f.eval(4), Scalar::from_u64(6));
    assert_eq!(f.eval(11), minus_one);
}

#[test]
fn scalar_poly_length_and_ends() {
    let mut f = poly(&[3, 2, 1]);
    assert_eq!(f.poly_len(), 3);
    f.pop_front();
    assert_eq!(f, poly(&[2, 1]));
    f.push_front(Scalar::from_u64(8));
    assert_eq!(f, poly(&[8, 2, 1]));
    assert_eq!(f.eval(2), Scalar::from_u64(16));
    let mut empty = poly(&[]);
    empty.pop_front();
    assert_eq!(empty.poly_len(), 0);
    empty.push_front(Scalar::one());
    assert_eq!(empty, poly(&[1]));
}

#[test]
fn random_poly_has_the_length_asked_for() {
    assert_eq!(ScalarPoly::random(0, &mut rng()).poly_len(), 0);
    assert_eq!(ScalarPoly::random(5, &mut rng()).poly_len(), 5);
    assert_ne!(ScalarPoly::random(2, &mut rng()), ScalarPoly::random(2, &mut rng()));
}

#[test]
fn point_poly_is_the_lift() {
    let f = poly(&[3, 2, 1]);
    let lifted = f.to_point_poly();
    assert_eq!(lifted.poly_len(), 3);
    assert_eq!(lifted.points()[0], Point::base_mul(&Scalar::from_u64(3)));
    assert_eq!(lifted.points()[1], Point::base_mul(&Scalar::from_u64(2)));
    assert_eq!(lifted.points()[2], Point::generator());
}

#[test]
fn point_poly_eval_is_the_image_of_the_value() {
    let f = ScalarPoly::random(4, &mut rng());
    let lifted = f.to_point_poly();
    for x in [0u32, 1, 2, 77, u32::MAX] {
        assert_eq!(lifted.eval(x), Point::base_mul(&f.eval(x)));
    }
    assert_eq!(poly(&[]).to_point_poly().eval(3).to_bytes(), [0u8; 32]);
    assert_eq!(poly(&[3, 2, 1]).to_point_poly().eval(5), Point::base_mul(&Scalar::from_u64(38)));
}

#[test]
fn point_poly_ends() {
    let mut lifted = poly(&[3, 2, 1]).to_point_poly();
    lifted.pop_front();
    assert_eq!(lifted.poly_len(), 2);
    assert_eq!(lifted.points()[0], Point::base_mul(&Scalar::from_u64(2)));
    let front = Point::random();
    lifted.push_front(front);
    assert_eq!(lifted.poly_len(), 3);
    assert_eq!(lifted.points()[0], front);
    assert_eq!(lifted.points()[2], Point::generator());
    let mut empty = poly(&[]).to_point_poly();
    empty.pop_front();
    assert_eq!(empty.poly_len(), 0);
}

#[test]
fn random_poly_can_be_repeated_from_a_seed() {
    assert_eq!(
        ScalarPoly::random(3, &mut StdRng::seed_from_u64(5)),
        ScalarPoly::random(3, &mut StdRng::seed_from_u64(5))
    );
}
