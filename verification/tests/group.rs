use curve25519_dalek_ng::constants::{BASEPOINT_ORDER, RISTRETTO_BASEPOINT_POINT};
use dlc_venc_adaptor::group::{bytes_equal, Point, Scalar};

fn order_bytes() -> [u8; 32] {
    BASEPOINT_ORDER.to_bytes()
}

fn small(x: u8) -> [u8; 32] {
    let mut bytes = [0u8; 32];
    bytes[0] = x;
    bytes
}

#[test]
fn scalar_from_small_numbers() {
    assert_eq!(Scalar::from_u64(0).to_bytes(), [0u8; 32]);
    assert_eq!(Scalar::zero().to_bytes(), [0u8; 32]);
    assert_eq!(Scalar::one().to_bytes(), small(1));
    assert_eq!(Scalar::from_u32(7).to_bytes(), small(7));
    let mut expected = [0u8; 32];
    expected[..8].copy_from_slice(&0x0102030405060708u64.to_le_bytes());
    assert_eq!(Scalar::from_u64(0x0102030405060708).to_bytes(), expected);
    let mut expected = [0u8; 32];
    expected[..4].copy_from_slice(&0xdeadbeefu32.to_le_bytes());
    assert_eq!(Scalar::from_u32(0xdeadbeef).to_bytes(), expected);
}

#[test]
fn scalar_arithmetic_is_modular() {
    let five = Scalar::from_u64(5);
    let seven = Scalar::from_u64(7);
    assert_eq!(five.add(&seven), Scalar::from_u64(12));
    assert_eq!(seven.sub(&five), Scalar::from_u64(2));
    assert_eq!(five.mul(&seven), Scalar::from_u64(35));

    let mut order_less_one = order_bytes();
    order_less_one[0] -= 1;
    let minus_one = Scalar::zero().sub(&Scalar::one());
    assert_eq!(minus_one.to_bytes(), order_less_one);
    assert_eq!(minus_one.add(&Scalar::one()), Scalar::zero());
    assert_eq!(minus_one.mul(&minus_one), Scalar::one());
    assert_eq!(five.sub(&seven).add(&seven), five);
}

#[test]
fn scalar_reduction() {
    assert_eq!(Scalar::from_bytes_mod_order(order_bytes()), Scalar::zero());
    let mut order_plus_two = order_bytes();
    order_plus_two[0] += 2;
    assert_eq!(Scalar::from_bytes_mod_order(order_plus_two), Scalar::from_u64(2));
    assert_eq!(Scalar::from_bytes_mod_order(small(9)), Scalar::from_u64(9));
}

#[test]
fn scalar_canonical_encodings_only() {
    assert_eq!(Scalar::from_canonical_bytes(small(3)), Some(Scalar::from_u64(3)));
    assert_eq!(Scalar::from_canonical_bytes(order_bytes()), None);
    assert_eq!(Scalar::from_canonical_bytes([0xff; 32]), None);
    let mut order_less_one = order_bytes();
    order_less_one[0] -= 1;
    let largest = Scalar::from_canonical_bytes(order_less_one).unwrap();
    assert_eq!(largest.to_bytes(), order_less_one);
}

#[test]
fn scalar_equality_is_by_value() {
    let a = Scalar::from_u64(41).add(&Scalar::one());
    let b = Scalar::from_u64(6).mul(&Scalar::from_u64(7));
    assert!(a.equals(&b));
    assert!(a == b);
    assert!(!a.equals(&Scalar::from_u64(43)));
    assert!(a != Scalar::from_u64(43));
}

#[test]
fn random_scalars_are_canonical_and_differ() {
    let a = Scalar::random();
    let b = Scalar::random();
    assert_ne!(a, b);
    assert_eq!(Scalar::from_canonical_bytes(a.to_bytes()), Some(a));
    assert_eq!(Scalar::from_bytes_mod_order(b.to_bytes()), b);
}

#[test]
fn generator_is_the_ristretto_basepoint() {
    let expected = [
        0xe2, 0xf2, 0xae, 0x0a, 0x6a, 0xbc, 0x4e, 0x71, 0xa8, 0x84, 0xa9, 0x61, 0xc5, 0x00, 0x51,
        0x5f, 0x58, 0xe3, 0x0b, 0x6a, 0xa5, 0x82, 0xdd, 0x8d, 0xb6, 0xa6, 0x59, 0x45, 0xe0, 0x8d,
        0x2d, 0x76,
    ];
    assert_eq!(Point::generator().to_bytes(), expected);
    assert_eq!(Point::generator().to_bytes(), RISTRETTO_BASEPOINT_POINT.compress().to_bytes());
    assert_eq!(Point::base_mul(&Scalar::one()), Point::generator());
}

#[test]
fn point_encodings_are_checked() {
    assert!(Point::from_bytes([0u8; 32]).is_some());
    assert!(Point::from_bytes([0xff; 32]).is_none());
    assert!(Point::from_bytes(small(1)).is_none());
    let g = Point::generator();
    assert_eq!(Point::from_bytes(g.to_bytes()), Some(g));
}

#[test]
fn point_arithmetic_agrees_with_the_curve() {
    let three = curve25519_dalek_ng::scalar::Scalar::from(3u64);
    let expected = (three * RISTRETTO_BASEPOINT_POINT).compress().to_bytes();
    let g = Point::generator();
    assert_eq!(g.add(&g).add(&g).to_bytes(), expected);
    assert_eq!(g.mul(&Scalar::from_u64(3)).to_bytes(), expected);
    assert_eq!(Point::base_mul(&Scalar::from_u64(3)).to_bytes(), expected);
    assert_eq!(g.add(&g).add(&g).add(&g).sub(&g).to_bytes(), expected);
    assert_ne!(g.add(&g).to_bytes(), expected);
}

#[test]
fn neutral_element_is_all_zero() {
    let g = Point::generator();
    assert_eq!(g.sub(&g).to_bytes(), [0u8; 32]);
    assert_eq!(Point::base_mul(&Scalar::zero()).to_bytes(), [0u8; 32]);
    assert_eq!(g.mul(&Scalar::zero()).to_bytes(), [0u8; 32]);
}

#[test]
fn multiples_of_the_generator_add_up() {
    let j = Scalar::random();
    let k = Scalar::random();
    assert_eq!(
        Point::base_mul(&j).add(&Point::base_mul(&k)),
        Point::base_mul(&j.add(&k))
    );
}

#[test]
fn scalars_act_in_either_order() {
    let s = Scalar::random();
    let k = Scalar::random();
    assert_eq!(
        Point::base_mul(&k).mul(&s),
        Point::base_mul(&s).mul(&k)
    );
    assert_eq!(Point::base_mul(&k).mul(&s), Point::base_mul(&k.mul(&s)));
}

#[test]
fn what_was_added_can_be_taken_away() {
    let b = Point::random();
    let x = Point::random();
    assert_eq!(b.add(&x).sub(&b), x);
    assert_eq!(x.add(&b).sub(&b), x);
}

#[test]
fn different_scalars_have_different_multiples() {
    let s = Scalar::random();
    let t = s.add(&Scalar::one());
    assert_ne!(Point::base_mul(&s), Point::base_mul(&t));
}

#[test]
fn multiscalar_mul_is_the_sum_of_the_products() {
    let scalars = vec![Scalar::from_u64(2), Scalar::from_u64(5), Scalar::random()];
    let points = vec![Point::random(), Point::generator(), Point::random()];
    let expected = points[0]
        .mul(&scalars[0])
        .add(&points[1].mul(&scalars[1]))
        .add(&points[2].mul(&scalars[2]));
    assert_eq!(Point::multiscalar_mul(&scalars, &points), expected);
    assert_eq!(Point::multiscalar_mul(&vec![], &vec![]).to_bytes(), [0u8; 32]);
}

#[test]
fn random_points_are_valid_and_differ() {
    let a = Point::random();
    let b = Point::random();
    assert_ne!(a, b);
    assert_eq!(Point::from_bytes(a.to_bytes()), Some(a));
}

#[test]
fn bytes_equal_compares_every_byte() {
    let a = [3u8; 32];
    let mut b = [3u8; 32];
    assert!(bytes_equal(&a, &b));
    b[31] = 4;
    assert!(!bytes_equal(&a, &b));
    b[31] = 3;
    b[0] = 0;
    assert!(!bytes_equal(&a, &b));
}

#[test]
fn scalar_inverse() {
    assert_eq!(Scalar::zero().invert(), None);
    assert_eq!(Scalar::one().invert(), Some(Scalar::one()));
    let two = Scalar::from_u64(2);
    let half = two.invert().unwrap();
    assert_ne!(half, two);
    assert_eq!(half.mul(&two), Scalar::one());
    assert_eq!(half.add(&half), Scalar::one());
    let a = Scalar::random();
    assert_eq!(a.invert().unwrap().mul(&a), Scalar::one());
}
