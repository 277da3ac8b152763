//! Polynomials over Z_q, and their lifts to the group, coefficient by coefficient.
use vstd::prelude::*;
use vstd::arithmetic::power::pow;
use crate::group::{
    base_mul, dot, encodings, group_order, ristretto_multiscalar_mul, values, Point, Scalar,
};

verus! {

/// A polynomial a₀ + a₁·x + … with coefficients in Z_q, the constant term first.
#[derive(Clone, Debug, PartialEq)]
pub struct ScalarPoly(Vec<Scalar>);

/// A polynomial with coefficients in the group, the constant term first.
#[derive(Debug, Clone)]
pub struct PointPoly(Vec<Point>);

/// The sum of the first `upto` terms aᵢ·xⁱ, as an integer.
pub open spec fn poly_sum(coefficients: Seq<Scalar>, x: int, upto: nat) -> int
    decreases upto,
{
    if upto == 0 {
        0
    } else {
        poly_sum(coefficients, x, (upto - 1) as nat) + coefficients[upto - 1]@ * pow(
            x,
            (upto - 1) as nat,
        )
    }
}

/// The value of the polynomial at x, in Z_q.
pub open spec fn poly_eval(coefficients: Seq<Scalar>, x: int) -> nat {
    (poly_sum(coefficients, x, coefficients.len()) % (group_order() as int)) as nat
}

/// The powers 1, x, x², … of x in Z_q, `count` of them.
pub open spec fn powers(x: int, count: nat) -> Seq<nat> {
    Seq::new(count, |i: int| (pow(x, i as nat) % (group_order() as int)) as nat)
}

/// One more term of a sum in Z_q: with the sum and the power reduced
/// modulo q, the next sum and the next power are the reduced ones again.
proof fn lemma_next_term(sum: int, power: int, x: int, a: int, q: int)
    requires
        q > 1,
    ensures
        ((power % q) * x) % q == (power * x) % q,
        ((sum % q) + (((power % q) * a) % q)) % q == (sum + power * a) % q,
        ((sum % q) + ((a * (power % q)) % q)) % q == (sum + a * power) % q,
{
    vstd::arithmetic::div_mod::lemma_mul_mod_noop_left(power, x, q);
    vstd::arithmetic::div_mod::lemma_mul_mod_noop_left(power, a, q);
    vstd::arithmetic::div_mod::lemma_mul_mod_noop_right(a, power, q);
    vstd::arithmetic::div_mod::lemma_add_mod_noop(sum, power * a, q);
    vstd::arithmetic::div_mod::lemma_add_mod_noop(sum, a * power, q);
    vstd::arithmetic::div_mod::lemma_mod_twice(power * a, q);
    vstd::arithmetic::div_mod::lemma_mod_twice(a * power, q);
    vstd::arithmetic::div_mod::lemma_add_mod_noop(sum % q, (power * a) % q, q);
    vstd::arithmetic::div_mod::lemma_add_mod_noop(sum % q, (a * power) % q, q);
    vstd::arithmetic::div_mod::lemma_mod_twice(sum, q);
}

/// The polynomial with the coefficients `points` is the lift of the one
/// with the coefficients `f`: each point is its coefficient times g.
pub open spec fn lifts(points: Seq<Point>, f: Seq<Scalar>) -> bool {
    &&& f.len() == points.len()
    &&& forall|i: int| 0 <= i < f.len() ==> (#[trigger] f[i]).wf() && points[i]@ == base_mul(f[i]@)
}

/// The sum of the products of the powers of x with the coefficients is
/// the value of the polynomial at x, in Z_q.
proof fn lemma_dot_is_eval(f: Seq<Scalar>, x: int, n: nat, upto: nat)
    requires
        upto <= n,
        n == f.len(),
    ensures
        dot(powers(x, n), values(f), upto) % group_order() == (poly_sum(f, x, upto) % (
        group_order() as int)) as nat,
    decreases upto,
{
    let q = group_order() as int;
    if upto > 0 {
        let m = (upto - 1) as nat;
        lemma_dot_is_eval(f, x, n, m);
        let a = f[m as int]@ as int;
        let power = pow(x, m);
        assert(powers(x, n)[m as int] == power % q);
        assert(values(f)[m as int] == a);
        vstd::arithmetic::div_mod::lemma_mul_mod_noop_left(power, a, q);
        assert(a * power == power * a) by (nonlinear_arith);
        vstd::arithmetic::div_mod::lemma_add_mod_noop(
            dot(powers(x, n), values(f), m) as int,
            (power % q) * a,
            q,
        );
        vstd::arithmetic::div_mod::lemma_add_mod_noop(poly_sum(f, x, m), a * power, q);
    }
}

impl ScalarPoly {
    /// The coefficients, the constant term first.
    pub closed spec fn coefficients(&self) -> Seq<Scalar> {
        self.0@
    }

    /// The polynomial with the given coefficients, the constant term first.
    pub fn new(x: Vec<Scalar>) -> (poly: ScalarPoly)
        ensures
            poly.coefficients() == x@,
    {
        ScalarPoly(x)
    }

    /// A polynomial with `n_coefficients` coefficients drawn from the generator.
    pub fn random(n_coefficients: usize, rng: &mut rand::rngs::StdRng) -> (poly: ScalarPoly)
        ensures
            poly.coefficients().len() == n_coefficients,
    {
        let mut coefficients: Vec<Scalar> = Vec::new();
        let mut i: usize = 0;
        while i < n_coefficients
            invariant
                i <= n_coefficients,
                coefficients@.len() == i,
            decreases n_coefficients - i,
        {
            coefficients.push(Scalar::random_with(rng));
            i += 1;
        }
        ScalarPoly(coefficients)
    }

    /// The number of coefficients.
    pub fn poly_len(&self) -> (n: usize)
        ensures
            n == self.coefficients().len(),
    {
        self.0.len()
    }

    /// The value Σ aᵢ·xⁱ of the polynomial at x; 0 for the polynomial
    /// without coefficients.
    pub fn eval(&self, x: u32) -> (value: Scalar)
        ensures
            value.wf(),
            value@ == poly_eval(self.coefficients(), x as int),
    {
        let x_scalar = Scalar::from_u32(x);
        let mut xpow = Scalar::one();
        let mut sum = Scalar::zero();
        let mut i: usize = 0;
        proof {
            vstd::arithmetic::power::lemma_pow0(x as int);
        }
        while i < self.0.len()
            invariant
                i <= self.0@.len(),
                x_scalar@ == x,
                xpow.wf(),
                sum.wf(),
                xpow@ == pow(x as int, i as nat) % (group_order() as int),
                sum@ == poly_sum(self.0@, x as int, i as nat) % (group_order() as int),
            decreases self.0@.len() - i,
        {
            let term = xpow.mul(&self.0[i]);
            let next = sum.add(&term);
            let next_pow = xpow.mul(&x_scalar);
            proof {
                let q = group_order() as int;
                lemma_next_term(
                    poly_sum(self.0@, x as int, i as nat),
                    pow(x as int, i as nat),
                    x as int,
                    self.0@[i as int]@ as int,
                    q,
                );
                vstd::arithmetic::power::lemma_pow1(x as int);
                vstd::arithmetic::power::lemma_pow_adds(x as int, i as nat, 1);
            }
            sum = next;
            xpow = next_pow;
            i += 1;
        }
        sum
    }

    /// The lift to the group: the coefficient aᵢ becomes aᵢ·g.
    pub fn to_point_poly(&self) -> (lifted: PointPoly)
        ensures
            lifted.coefficients().len() == self.coefficients().len(),
            forall|i: int|
                0 <= i < self.coefficients().len() ==> (#[trigger] lifted.coefficients()[i])@
                    == base_mul(self.coefficients()[i]@),
            lifts(lifted.coefficients(), self.coefficients()),
    {
        let mut points: Vec<Point> = Vec::new();
        let mut i: usize = 0;
        while i < self.0.len()
            invariant
                i <= self.0@.len(),
                points@.len() == i,
                forall|j: int| 0 <= j < i ==> (#[trigger] points@[j])@ == base_mul(self.0@[j]@),
                forall|j: int| 0 <= j < i ==> (#[trigger] self.0@[j]).wf(),
            decreases self.0@.len() - i,
        {
            let coefficient = self.0[i];
            proof {
                use_type_invariant(&coefficient);
            }
            points.push(Point::base_mul(&coefficient));
            i += 1;
        }
        PointPoly(points)
    }

    /// Takes the constant term away: every other coefficient moves one
    /// place down. A polynomial without coefficients stays as it is.
    pub fn pop_front(&mut self)
        ensures
            old(self).coefficients().len() > 0 ==> final(self).coefficients() == old(
                self,
            ).coefficients().drop_first(),
            old(self).coefficients().len() == 0 ==> final(self).coefficients() == old(
                self,
            ).coefficients(),
    {
        if self.0.len() > 0 {
            self.0.remove(0);
            assert(self.0@ =~= old(self).0@.drop_first());
        }
    }

    /// Puts a new constant term in front: every coefficient moves one place up.
    pub fn push_front(&mut self, scalar: Scalar)
        ensures
            final(self).coefficients() == seq![scalar] + old(self).coefficients(),
    {
        self.0.insert(0, scalar);
        assert(self.0@ =~= seq![scalar] + old(self).0@);
    }
}

impl PointPoly {
    /// The coefficients, the constant term first.
    pub closed spec fn coefficients(&self) -> Seq<Point> {
        self.0@
    }

    /// The polynomial with the given coefficients, the constant term first.
    pub fn new(points: Vec<Point>) -> (poly: PointPoly)
        ensures
            poly.coefficients() == points@,
    {
        PointPoly(points)
    }

    /// The value Σ xⁱ·Pᵢ of the polynomial at x.
    pub fn eval(&self, x: u32) -> (value: Point)
        ensures
            value.wf(),
            value@ == ristretto_multiscalar_mul(
                powers(x as int, self.coefficients().len()),
                encodings(self.coefficients()),
            ),
            forall|f: Seq<Scalar>|
                lifts(self.coefficients(), f) ==> value@ == base_mul(
                    #[trigger] poly_eval(f, x as int),
                ),
    {
        let x_scalar = Scalar::from_u32(x);
        let mut xpows: Vec<Scalar> = Vec::new();
        let mut xpow = Scalar::one();
        let mut i: usize = 0;
        proof {
            vstd::arithmetic::power::lemma_pow0(x as int);
        }
        while i < self.0.len()
            invariant
                i <= self.0@.len(),
                x_scalar@ == x,
                xpow.wf(),
                xpow@ == pow(x as int, i as nat) % (group_order() as int),
                xpows@.len() == i,
                forall|j: int|
                    0 <= j < i ==> (#[trigger] xpows@[j])@ == pow(x as int, j as nat) % (
                    group_order() as int),
            decreases self.0@.len() - i,
        {
            xpows.push(xpow);
            let next_pow = xpow.mul(&x_scalar);
            proof {
                let q = group_order() as int;
                lemma_next_term(0, pow(x as int, i as nat), x as int, 0, q);
                vstd::arithmetic::power::lemma_pow1(x as int);
                vstd::arithmetic::power::lemma_pow_adds(x as int, i as nat, 1);
            }
            xpow = next_pow;
            i += 1;
        }
        assert(values(xpows@) =~= powers(x as int, self.0@.len()));
        let value = Point::multiscalar_mul(&xpows, &self.0);
        proof {
            assert forall|f: Seq<Scalar>| lifts(self.0@, f) implies value@ == base_mul(
                #[trigger] poly_eval(f, x as int),
            ) by {
                let ks = values(f);
                assert forall|i: int| 0 <= i < ks.len() implies (#[trigger] ks[i])
                    < group_order() && encodings(self.0@)[i] == base_mul(ks[i]) by {
                    assert(f[i].wf());
                }
                lemma_dot_is_eval(f, x as int, f.len(), f.len());
                assert(value@ == base_mul(
                    dot(values(xpows@), ks, ks.len()) % group_order(),
                ));
            }
        }
        value
    }

    /// The number of coefficients.
    pub fn poly_len(&self) -> (n: usize)
        ensures
            n == self.coefficients().len(),
    {
        self.0.len()
    }

    /// The coefficients, the constant term first.
    pub fn points(&self) -> (points: &[Point])
        ensures
            points@ == self.coefficients(),
    {
        self.0.as_slice()
    }

    /// Takes the constant term away: every other coefficient moves one
    /// place down. A polynomial without coefficients stays as it is.
    pub fn pop_front(&mut self)
        ensures
            old(self).coefficients().len() > 0 ==> final(self).coefficients() == old(
                self,
            ).coefficients().drop_first(),
            old(self).coefficients().len() == 0 ==> final(self).coefficients() == old(
                self,
            ).coefficients(),
    {
        if self.0.len() > 0 {
            self.0.remove(0);
            assert(self.0@ =~= old(self).0@.drop_first());
        }
    }

    /// Puts a new constant term in front: every coefficient moves one place up.
    pub fn push_front(&mut self, point: Point)
        ensures
            final(self).coefficients() == seq![point] + old(self).coefficients(),
    {
        self.0.insert(0, point);
        assert(self.0@ =~= seq![point] + old(self).0@);
    }
}

} // verus!
