//! Threshold sharing of a secret across oracles: the shares are the values
//! of a polynomial with the secret as its constant term, and any t of them
//! give the secret back by interpolation at 0.
use vstd::prelude::*;
use vstd::arithmetic::div_mod::{
    lemma_add_mod_noop, lemma_mod_twice, lemma_mul_mod_noop_left, lemma_mul_mod_noop_right,
    lemma_small_mod, lemma_sub_mod_noop,
};
use vstd::slice::{slice_subrange, slice_to_vec};
use crate::bob::{bucket_secret, holds_honest_entry, Bob2, Entry};
use crate::common::Params;
use crate::error::Error;
use crate::group::{
    base_mul, encodings, group_order, ristretto_add, ristretto_mul, ristretto_multiscalar_mul,
    Point, Scalar,
};
use crate::poly::{lifts, poly_eval, poly_sum, powers, PointPoly, ScalarPoly};

verus! {

/// Whether r is the inverse of a in Z_q.
pub open spec fn inverts(a: int, r: int) -> bool {
    0 <= r < group_order() && (a * r) % (group_order() as int) == 1
}

/// Whether a has an inverse in Z_q.
pub open spec fn has_inverse(a: int) -> bool {
    exists|r: int| inverts(a, r)
}

/// The inverse of a in Z_q, where a has one.
pub open spec fn inverse(a: int) -> int {
    choose|r: int| inverts(a, r)
}

/// The first coordinates of the points.
pub open spec fn nodes(points: Seq<(u32, Scalar)>) -> Seq<int> {
    Seq::new(points.len(), |i: int| points[i].0 as int)
}

/// The second coordinates of the points.
pub open spec fn data(points: Seq<(u32, Scalar)>) -> Seq<int> {
    Seq::new(points.len(), |i: int| points[i].1@ as int)
}

/// No two nodes are the same.
pub open spec fn distinct(xs: Seq<int>) -> bool {
    forall|a: int, b: int| 0 <= a < b < xs.len() ==> xs[a] != xs[b]
}

/// The k-th divided difference in Z_q of the data at node j against the
/// nodes 0, …, k − 1: the data itself for k = 0, and for k > 0 the
/// difference of the (k − 1)-th divided differences at the nodes j and
/// k − 1, divided by the difference of the two nodes.
pub open spec fn divided(xs: Seq<int>, ys: Seq<int>, j: int, k: nat) -> int
    decreases k,
{
    if k == 0 {
        ys[j] % (group_order() as int)
    } else {
        ((divided(xs, ys, j, (k - 1) as nat) - divided(xs, ys, k - 1, (k - 1) as nat)) * inverse(
            (xs[j] - xs[k - 1]) % (group_order() as int),
        )) % (group_order() as int)
    }
}

/// The product of the first `upto` nodes, each negated, in Z_q.
pub open spec fn negated_product(xs: Seq<int>, upto: nat) -> int
    decreases upto,
{
    if upto == 0 {
        1
    } else {
        (negated_product(xs, (upto - 1) as nat) * (-xs[upto - 1])) % (group_order() as int)
    }
}

/// The value at 0 of Newton's form of the polynomial through the first
/// `upto` points: the sum over k of the k-th divided difference at node k
/// times the product of the negated nodes before k, in Z_q.
pub open spec fn newton_at_zero(xs: Seq<int>, ys: Seq<int>, upto: nat) -> int
    decreases upto,
{
    if upto == 0 {
        0
    } else {
        (newton_at_zero(xs, ys, (upto - 1) as nat) + divided(
            xs,
            ys,
            upto - 1,
            (upto - 1) as nat,
        ) * negated_product(xs, (upto - 1) as nat)) % (group_order() as int)
    }
}

/// An element of Z_q has one inverse at most.
pub proof fn lemma_inverse_unique(a: int, r: int, s: int)
    requires
        inverts(a, r),
        inverts(a, s),
    ensures
        r == s,
{
    let q = group_order() as int;
    // r = r·1 = r·(a·s) = (r·a)·s = s, all in Z_q
    assert((r * (a * s)) % q == r % q) by {
        lemma_mul_mod_noop_right(r, a * s, q);
    }
    assert((s * (a * r)) % q == s % q) by {
        lemma_mul_mod_noop_right(s, a * r, q);
    }
    assert(r * (a * s) == s * (a * r)) by (nonlinear_arith);
    lemma_small_mod(r as nat, q as nat);
    lemma_small_mod(s as nat, q as nat);
}

/// The value at z of the polynomial with the coefficients c[i], c[i + 1], …,
/// by Horner's rule.
pub open spec fn tail_eval(c: Seq<int>, z: int, i: nat) -> int
    decreases c.len() - i,
{
    if i >= c.len() {
        0
    } else {
        c[i as int] + z * tail_eval(c, z, i + 1)
    }
}

/// The quotient of the polynomial with the coefficients c by z − a: the
/// polynomial s with c(z) − c(a) = (z − a)·s(z).
pub open spec fn quotient(c: Seq<int>, a: int) -> Seq<int> {
    Seq::new(
        if c.len() > 0 {
            (c.len() - 1) as nat
        } else {
            0
        },
        |i: int| tail_eval(c, a, (i + 1) as nat),
    )
}

/// The polynomial that is left of c after dividing by z − x for each of the
/// first k nodes x in turn.
pub open spec fn quotients(c: Seq<int>, xs: Seq<int>, k: nat) -> Seq<int>
    decreases k,
{
    if k == 0 {
        c
    } else {
        quotient(quotients(c, xs, (k - 1) as nat), xs[k - 1])
    }
}

/// The numbers that the coefficients stand for.
pub open spec fn integers(coefficients: Seq<Scalar>) -> Seq<int> {
    Seq::new(coefficients.len(), |i: int| coefficients[i]@ as int)
}

/// The difference of any two nodes has an inverse in Z_q, where the lower
/// of the two is among the first `upto`.
pub open spec fn differences_invertible(xs: Seq<int>, upto: int) -> bool {
    forall|a: int, b: int|
        0 <= a < b < xs.len() && a < upto ==> has_inverse(
            #[trigger] ((xs[b] - xs[a]) % (group_order() as int)),
        )
}

/// Division by z − a leaves no remainder of c(z) − c(a).
proof fn lemma_quotient(c: Seq<int>, a: int, z: int, i: nat)
    ensures
        tail_eval(c, z, i) - tail_eval(c, a, i) == (z - a) * tail_eval(quotient(c, a), z, i),
    decreases c.len() - i,
{
    let s = quotient(c, a);
    if i + 1 < c.len() {
        lemma_quotient(c, a, z, i + 1);
        let tz = tail_eval(c, z, i + 1);
        let ta = tail_eval(c, a, i + 1);
        let sz = tail_eval(s, z, i + 1);
        assert(s[i as int] == ta);
        assert(tail_eval(s, z, i) == ta + z * sz);
        assert(z * tz - a * ta == (z - a) * (ta + z * sz)) by (nonlinear_arith)
            requires
                tz - ta == (z - a) * sz,
        ;
    } else if i < c.len() {
        assert(tail_eval(c, z, i + 1) == 0);
        assert(tail_eval(c, a, i + 1) == 0);
        assert(tail_eval(s, z, i) == 0);
        assert((z - a) * 0 == 0);
        assert(z * 0 == 0 && a * 0 == 0);
    } else {
        assert((z - a) * 0 == 0);
    }
}

/// Each division takes one coefficient away.
proof fn lemma_quotients_len(c: Seq<int>, xs: Seq<int>, k: nat)
    ensures
        quotients(c, xs, k).len() == if c.len() >= k {
            c.len() - k
        } else {
            0
        },
    decreases k,
{
    if k > 0 {
        lemma_quotients_len(c, xs, (k - 1) as nat);
    }
}

/// The sum of the terms aᵢ·zⁱ is what Horner's rule gives.
proof fn lemma_sum_is_horner(f: Seq<Scalar>, z: int, i: nat)
    requires
        i <= f.len(),
    ensures
        poly_sum(f, z, f.len()) == poly_sum(f, z, i) + vstd::arithmetic::power::pow(z, i)
            * tail_eval(integers(f), z, i),
    decreases f.len() - i,
{
    let c = integers(f);
    let p = vstd::arithmetic::power::pow(z, i);
    if i < f.len() {
        lemma_sum_is_horner(f, z, i + 1);
        let next = vstd::arithmetic::power::pow(z, i + 1);
        let t = tail_eval(c, z, i + 1);
        vstd::arithmetic::power::lemma_pow1(z);
        vstd::arithmetic::power::lemma_pow_adds(z, i, 1);
        assert(next == p * z);
        assert(c[i as int] == f[i as int]@);
        assert(p * (c[i as int] + z * t) == f[i as int]@ * p + next * t) by (nonlinear_arith)
            requires
                next == p * z,
                c[i as int] == f[i as int]@,
        ;
    } else {
        assert(p * 0 == 0);
    }
}

/// Dividing a multiple of Δ by Δ in Z_q: with e = Δ·t and r the inverse of
/// Δ, the product e·r is t.
proof fn lemma_divide_out(e: int, delta: int, t: int, r: int)
    requires
        e == delta * t,
        inverts(delta % (group_order() as int), r),
    ensures
        (e * r) % (group_order() as int) == t % (group_order() as int),
{
    let q = group_order() as int;
    lemma_mul_mod_noop_left(delta, r, q);
    assert((delta * r) % q == 1);
    assert(e * r == t * (delta * r)) by (nonlinear_arith)
        requires
            e == delta * t,
    ;
    lemma_mul_mod_noop_right(t, delta * r, q);
    assert(t * 1 == t);
}

/// The divided differences of data that lie on a polynomial are the values
/// of its quotients: the k-th at node j is the value at node j of what is
/// left after dividing by z − x for the first k nodes.
proof fn lemma_divided_is_quotient(c: Seq<int>, xs: Seq<int>, ys: Seq<int>, j: int, k: nat)
    requires
        xs.len() == ys.len(),
        k <= j < xs.len(),
        differences_invertible(xs, k as int),
        forall|n: int|
            0 <= n < xs.len() ==> (#[trigger] ys[n]) % (group_order() as int) == tail_eval(
                c,
                xs[n],
                0,
            ) % (group_order() as int),
    ensures
        divided(xs, ys, j, k) == tail_eval(quotients(c, xs, k), xs[j], 0) % (group_order() as int),
    decreases k,
{
    let q = group_order() as int;
    if k > 0 {
        let before = quotients(c, xs, (k - 1) as nat);
        lemma_divided_is_quotient(c, xs, ys, j, (k - 1) as nat);
        lemma_divided_is_quotient(c, xs, ys, k - 1, (k - 1) as nat);
        let d1 = divided(xs, ys, j, (k - 1) as nat);
        let d2 = divided(xs, ys, k - 1, (k - 1) as nat);
        let e1 = tail_eval(before, xs[j], 0);
        let e2 = tail_eval(before, xs[k - 1], 0);
        let t = tail_eval(quotients(c, xs, k), xs[j], 0);
        let delta = xs[j] - xs[k - 1];
        lemma_quotient(before, xs[k - 1], xs[j], 0);
        assert(e1 - e2 == delta * t);
        let a = delta % q;
        assert(has_inverse(a));
        let r = inverse(a);
        assert(inverts(a, r));
        lemma_divide_out(e1 - e2, delta, t, r);
        lemma_sub_mod_noop(e1, e2, q);
        assert((d1 - d2) % q == (e1 - e2) % q);
        lemma_mul_mod_noop_left(d1 - d2, r, q);
        lemma_mul_mod_noop_left(e1 - e2, r, q);
    }
}

/// Newton's form, cut off after k terms, with what is left of the
/// polynomial: c(0) is the sum of the first k terms and the product of the
/// first k negated nodes times the value at 0 of the k-th quotient, in Z_q.
proof fn lemma_newton_expansion(c: Seq<int>, xs: Seq<int>, ys: Seq<int>, k: nat)
    requires
        xs.len() == ys.len(),
        k <= xs.len(),
        differences_invertible(xs, k as int),
        forall|n: int|
            0 <= n < xs.len() ==> (#[trigger] ys[n]) % (group_order() as int) == tail_eval(
                c,
                xs[n],
                0,
            ) % (group_order() as int),
    ensures
        tail_eval(c, 0, 0) % (group_order() as int) == (newton_at_zero(xs, ys, k)
            + negated_product(xs, k) * tail_eval(quotients(c, xs, k), 0, 0)) % (
        group_order() as int),
    decreases k,
{
    let q = group_order() as int;
    if k == 0 {
        assert(1 * tail_eval(c, 0, 0) == tail_eval(c, 0, 0));
    } else {
        let m = (k - 1) as nat;
        lemma_newton_expansion(c, xs, ys, m);
        lemma_divided_is_quotient(c, xs, ys, m as int, m);
        let left = quotients(c, xs, m);
        let n0 = newton_at_zero(xs, ys, m);
        let before = negated_product(xs, m);
        let r0 = tail_eval(left, 0, 0);
        let v = tail_eval(left, xs[m as int], 0);
        let r1 = tail_eval(quotients(c, xs, k), 0, 0);
        let x = xs[m as int];
        let d = divided(xs, ys, m as int, m);
        lemma_quotient(left, x, 0, 0);
        assert(r0 - v == (0 - x) * r1);
        // c(0) = n0 + before·r0 = n0 + before·v + before·(−x)·r1
        assert(n0 + before * r0 == (n0 + before * v) + (before * (-x)) * r1) by (nonlinear_arith)
            requires
                r0 - v == (0 - x) * r1,
        ;
        // n1 = (n0 + d·before) % q with d = v % q, and after = (before·(−x)) % q
        let n1 = newton_at_zero(xs, ys, k);
        let after = negated_product(xs, k);
        assert(n1 == (n0 + d * before) % q);
        assert(after == (before * (-x)) % q);
        lemma_mul_mod_noop_left(v, before, q);
        assert((d * before) % q == (v * before) % q);
        lemma_add_mod_noop(n0, d * before, q);
        lemma_add_mod_noop(n0, v * before, q);
        assert(n1 == (n0 + v * before) % q);
        assert(v * before == before * v) by (nonlinear_arith);
        lemma_mul_mod_noop_left(before * (-x), r1, q);
        assert((after * r1) % q == ((before * (-x)) * r1) % q);
        lemma_add_mod_noop(n0 + before * v, (before * (-x)) * r1, q);
        lemma_add_mod_noop(n1, after * r1, q);
        lemma_mod_twice(n0 + before * v, q);
    }
}

/// Interpolation gives back the constant term: for data that lie on a
/// polynomial with no more coefficients than there are points, Newton's
/// form at 0 is the value of the polynomial at 0.
pub proof fn lemma_interpolation(f: Seq<Scalar>, xs: Seq<int>, ys: Seq<int>)
    requires
        xs.len() == ys.len(),
        f.len() <= xs.len(),
        differences_invertible(xs, xs.len() as int),
        forall|n: int| 0 <= n < xs.len() ==> (#[trigger] ys[n]) == poly_eval(f, xs[n]),
    ensures
        newton_at_zero(xs, ys, xs.len()) == poly_eval(f, 0),
{
    let q = group_order() as int;
    let c = integers(f);
    assert forall|n: int| 0 <= n < xs.len() implies (#[trigger] ys[n]) % q == tail_eval(
        c,
        xs[n],
        0,
    ) % q by {
        lemma_sum_is_horner(f, xs[n], 0);
        vstd::arithmetic::power::lemma_pow0(xs[n]);
        assert(1 * tail_eval(c, xs[n], 0) == tail_eval(c, xs[n], 0));
        lemma_mod_twice(poly_sum(f, xs[n], f.len()), q);
    }
    lemma_newton_expansion(c, xs, ys, xs.len());
    lemma_quotients_len(c, xs, xs.len());
    let rest = quotients(c, xs, xs.len());
    assert(tail_eval(rest, 0, 0) == 0);
    assert(negated_product(xs, xs.len()) * 0 == 0);
    lemma_sum_is_horner(f, 0, 0);
    vstd::arithmetic::power::lemma_pow0(0);
    assert(1 * tail_eval(c, 0, 0) == tail_eval(c, 0, 0));
    if xs.len() > 0 {
        lemma_mod_twice(
            newton_at_zero(xs, ys, (xs.len() - 1) as nat) + divided(
                xs,
                ys,
                xs.len() - 1,
                (xs.len() - 1) as nat,
            ) * negated_product(xs, (xs.len() - 1) as nat),
            q,
        );
    } else {
        assert(f.len() == 0);
        assert(tail_eval(c, 0, 0) == 0);
    }
}

/// Whether the first coordinates of the points are pairwise distinct.
fn nodes_distinct(points: &[(u32, Scalar)]) -> (ok: bool)
    ensures
        ok == distinct(nodes(points@)),
{
    let mut b: usize = 0;
    while b < points.len()
        invariant
            b <= points@.len(),
            forall|i: int, j: int| 0 <= i < j < b ==> nodes(points@)[i] != nodes(points@)[j],
        decreases points@.len() - b,
    {
        let mut a: usize = 0;
        while a < b
            invariant
                a <= b < points@.len(),
                forall|i: int| 0 <= i < a ==> nodes(points@)[i] != nodes(points@)[b as int],
            decreases b - a,
        {
            if points[a].0 == points[b].0 {
                assert(nodes(points@)[a as int] == nodes(points@)[b as int]);
                return false;
            }
            a += 1;
        }
        b += 1;
    }
    true
}

/// The value at 0 of the polynomial of degree below t through t points
/// with pairwise distinct first coordinates, by Newton's divided
/// differences; nothing where two first coordinates are the same.
pub fn interpolate_at_zero(points: &[(u32, Scalar)]) -> (value: Option<Scalar>)
    ensures
        value.is_some() <==> distinct(nodes(points@)),
        value.is_some() ==> value.unwrap().wf() && value.unwrap()@ == newton_at_zero(
            nodes(points@),
            data(points@),
            points@.len(),
        ),
        value.is_some() ==> forall|f: Seq<Scalar>|
            f.len() <= points@.len() && (forall|n: int|
                0 <= n < points@.len() ==> (#[trigger] points@[n]).1@ == poly_eval(
                    f,
                    points@[n].0 as int,
                )) ==> value.unwrap()@ == #[trigger] poly_eval(f, 0),
{
    if !nodes_distinct(points) {
        return None;
    }
    let t = points.len();
    let ghost xs = nodes(points@);
    let ghost ys = data(points@);
    let ghost q = group_order() as int;
    let mut x: Vec<Scalar> = Vec::new();
    let mut d: Vec<Scalar> = Vec::new();
    let mut i: usize = 0;
    while i < t
        invariant
            i <= t,
            t == points@.len(),
            xs == nodes(points@),
            ys == data(points@),
            x@.len() == i,
            d@.len() == i,
            forall|j: int| 0 <= j < i ==> (#[trigger] x@[j])@ == xs[j] && x@[j].wf(),
            forall|j: int|
                0 <= j < i ==> (#[trigger] d@[j])@ == divided(xs, ys, j, 0) && d@[j].wf(),
        decreases t - i,
    {
        x.push(Scalar::from_u32(points[i].0));
        let y = points[i].1;
        proof {
            use_type_invariant(&y);
            lemma_small_mod(y@, group_order());
        }
        d.push(y);
        i += 1;
    }
    let mut k: usize = 1;
    while k < t
        invariant
            1 <= k,
            q == group_order(),
            t == points@.len(),
            xs == nodes(points@),
            ys == data(points@),
            distinct(xs),
            x@.len() == t,
            d@.len() == t,
            forall|j: int| 0 <= j < t ==> (#[trigger] x@[j])@ == xs[j] && x@[j].wf(),
            forall|j: int| 0 <= j < t ==> (#[trigger] d@[j]).wf(),
            forall|j: int| 0 <= j < k && j < t ==> (#[trigger] d@[j])@ == divided(xs, ys, j, j as nat),
            forall|j: int|
                k <= j < t ==> (#[trigger] d@[j])@ == divided(xs, ys, j, (k - 1) as nat),
            differences_invertible(xs, k - 1),
        decreases t - k,
    {
        let mut j: usize = k;
        while j < t
            invariant
                1 <= k <= j <= t,
                k < t,
                q == group_order(),
                t == points@.len(),
                xs == nodes(points@),
                ys == data(points@),
                distinct(xs),
                x@.len() == t,
                d@.len() == t,
                forall|n: int| 0 <= n < t ==> (#[trigger] x@[n])@ == xs[n] && x@[n].wf(),
                forall|n: int| 0 <= n < t ==> (#[trigger] d@[n]).wf(),
                forall|n: int| 0 <= n < k ==> (#[trigger] d@[n])@ == divided(xs, ys, n, n as nat),
                forall|n: int| k <= n < j ==> (#[trigger] d@[n])@ == divided(xs, ys, n, k as nat),
                forall|n: int|
                    j <= n < t ==> (#[trigger] d@[n])@ == divided(xs, ys, n, (k - 1) as nat),
                differences_invertible(xs, k - 1),
                forall|b: int|
                    k <= b < j ==> has_inverse(#[trigger] ((xs[b] - xs[k - 1]) % q)),
            decreases t - j,
        {
            let difference = x[j].sub(&x[k - 1]);
            proof {
                assert(xs[k - 1] != xs[j as int]);
                lemma_nonzero_difference(xs[j as int], xs[k - 1]);
            }
            match difference.invert() {
                Some(inverted) => {
                    let above = d[j].sub(&d[k - 1]);
                    let next = above.mul(&inverted);
                    proof {
                        let a = (xs[j as int] - xs[k - 1]) % q;
                        assert(inverts(a, inverted@ as int));
                        lemma_inverse_unique(a, inverted@ as int, inverse(a));
                        lemma_mul_mod_noop_left(d@[j as int]@ - d@[k - 1]@, inverted@ as int, q);
                    }
                    d.set(j, next);
                },
                None => {
                    return None;
                },
            }
            j += 1;
        }
        k += 1;
    }
    let mut sum = Scalar::zero();
    let mut product = Scalar::one();
    let mut k: usize = 0;
    while k < t
        invariant
            k <= t,
            q == group_order(),
            t == points@.len(),
            xs == nodes(points@),
            ys == data(points@),
            x@.len() == t,
            d@.len() == t,
            forall|j: int| 0 <= j < t ==> (#[trigger] x@[j])@ == xs[j] && x@[j].wf(),
            forall|j: int| 0 <= j < t ==> (#[trigger] d@[j])@ == divided(xs, ys, j, j as nat),
            sum.wf(),
            product.wf(),
            sum@ == newton_at_zero(xs, ys, k as nat),
            product@ == negated_product(xs, k as nat),
        decreases t - k,
    {
        let term = d[k].mul(&product);
        let next_sum = sum.add(&term);
        let negated = Scalar::zero().sub(&x[k]);
        let next_product = product.mul(&negated);
        proof {
            lemma_add_mod_noop(sum@ as int, (d@[k as int]@ * product@) as int, q);
            lemma_small_mod(sum@, q as nat);
            lemma_mul_mod_noop_right(product@ as int, -xs[k as int], q);
        }
        sum = next_sum;
        product = next_product;
        k += 1;
    }
    proof {
        assert forall|f: Seq<Scalar>|
            f.len() <= points@.len() && (forall|n: int|
                0 <= n < points@.len() ==> (#[trigger] points@[n]).1@ == poly_eval(
                    f,
                    points@[n].0 as int,
                )) implies sum@ == #[trigger] poly_eval(f, 0) by {
            assert forall|n: int| 0 <= n < xs.len() implies (#[trigger] ys[n]) == poly_eval(
                f,
                xs[n],
            ) by {
                assert(points@[n].1@ == poly_eval(f, points@[n].0 as int));
            }
            lemma_interpolation(f, xs, ys);
        }
    }
    Some(sum)
}

/// Two different numbers below 2^32 differ in Z_q.
proof fn lemma_nonzero_difference(a: int, b: int)
    requires
        0 <= a < 0x1_0000_0000,
        0 <= b < 0x1_0000_0000,
        a != b,
    ensures
        (a - b) % (group_order() as int) != 0,
{
    let q = group_order() as int;
    if a > b {
        lemma_small_mod((a - b) as nat, q as nat);
    } else {
        vstd::arithmetic::div_mod::lemma_mod_add_multiples_vanish(a - b, q);
        lemma_small_mod((a - b + q) as nat, q as nat);
    }
}

/// The key that an oracle's attestation will open: P + (index + 1)·N for
/// the oracle's public key P and public nonce N, where the index is that of
/// the outcome or, for the nonce of one bit, the value of the bit.
pub fn anticipated_key(public_key: &Point, public_nonce: &Point, index: u32) -> (key: Point)
    ensures
        key.wf(),
        key@ == ristretto_add(public_key@, ristretto_mul((index + 1) as nat, public_nonce@)),
        forall|sk: nat, nsk: nat|
            sk < group_order() && nsk < group_order() && public_key@ == #[trigger] base_mul(sk)
                && public_nonce@ == #[trigger] base_mul(nsk) ==> key@ == base_mul(
                crate::oracle::attestation(sk, nsk, index as nat),
            ),
{
    let coefficient = Scalar::from_u64(index as u64 + 1);
    let multiple = public_nonce.mul(&coefficient);
    let key = public_key.add(&multiple);
    proof {
        assert forall|sk: nat, nsk: nat|
            sk < group_order() && nsk < group_order() && public_key@ == #[trigger] base_mul(sk)
                && public_nonce@ == #[trigger] base_mul(nsk) implies key@ == base_mul(
            crate::oracle::attestation(sk, nsk, index as nat),
        ) by {
            let q = group_order() as int;
            let product = ((index + 1) * nsk) % q;
            assert(multiple@ == base_mul(product as nat));
            assert(key@ == base_mul(((sk + product) % q) as nat));
            lemma_add_mod_noop(sk as int, (index + 1) * nsk, q);
            lemma_small_mod(sk, q as nat);
        }
    }
    key
}

/// A polynomial drawn from the generator, with the secret as its constant term and
/// `threshold` coefficients in all (one, where the threshold is 0): any
/// `threshold` of its values at other places give the secret.
pub fn share_polynomial(secret: Scalar, threshold: usize, rng: &mut rand::rngs::StdRng) -> (poly:
    ScalarPoly)
    ensures
        poly.coefficients().len() == if threshold == 0 {
            1
        } else {
            threshold as int
        },
        poly.coefficients()[0] == secret,
{
    let mut poly = ScalarPoly::random(
        if threshold == 0 {
            0
        } else {
            threshold - 1
        },
        rng,
    );
    poly.push_front(secret);
    poly
}

/// The shares of the oracles 0, …, n − 1: the values of the polynomial at
/// 1, …, n.
pub fn shares_of(poly: &ScalarPoly, n_oracles: u32) -> (shares: Vec<Scalar>)
    ensures
        shares@.len() == n_oracles,
        forall|j: int|
            0 <= j < n_oracles ==> (#[trigger] shares@[j])@ == poly_eval(
                poly.coefficients(),
                j + 1,
            ),
{
    let mut shares: Vec<Scalar> = Vec::new();
    let mut j: u32 = 0;
    while j < n_oracles
        invariant
            j <= n_oracles,
            shares@.len() == j,
            forall|i: int|
                0 <= i < j ==> (#[trigger] shares@[i])@ == poly_eval(poly.coefficients(), i + 1),
        decreases n_oracles - j,
    {
        shares.push(poly.eval(j + 1));
        j += 1;
    }
    shares
}

/// The image of a share: the value at `node` of the lifted polynomial, which
/// was sent without its constant term, under the image of the secret as the
/// constant term.
pub fn share_image(committed: &PointPoly, secret_image: &Point, node: u32) -> (image: Point)
    ensures
        image.wf(),
        image@ == ristretto_multiscalar_mul(
            powers(node as int, committed.coefficients().len() + 1),
            encodings(seq![*secret_image] + committed.coefficients()),
        ),
        forall|f: Seq<Scalar>|
            lifts(seq![*secret_image] + committed.coefficients(), f) ==> image@ == base_mul(
                #[trigger] poly_eval(f, node as int),
            ),
{
    let mut points = slice_to_vec(committed.points());
    points.insert(0, *secret_image);
    assert(points@ =~= seq![*secret_image] + committed.coefficients());
    PointPoly::new(points).eval(node)
}

/// What the first `threshold` of the shares give: nothing where there are
/// fewer or where two of them come from one node, else the value at 0 of
/// the polynomial through them, if it has the expected image.
pub open spec fn recovery(xs: Seq<int>, ys: Seq<int>, threshold: nat, image: Seq<u8>) -> Result<
    int,
    Error,
> {
    if xs.len() < threshold || !distinct(xs.subrange(0, threshold as int)) {
        Err(Error::NotEnoughShares)
    } else {
        let secret = newton_at_zero(
            xs.subrange(0, threshold as int),
            ys.subrange(0, threshold as int),
            threshold,
        );
        if base_mul(secret as nat) == image {
            Ok(secret)
        } else {
            Err(Error::WrongSecret)
        }
    }
}

/// Recovers a secret from shares (node, value): interpolates the first
/// `threshold` of them at 0 and checks the image of what comes out. Where
/// these lie on a polynomial of degree below the threshold whose constant
/// term has the expected image, the constant term comes out.
pub fn recover_secret(shares: &[(u32, Scalar)], threshold: usize, image: &Point) -> (result:
    Result<Scalar, Error>)
    ensures
        match result {
            Ok(secret) => recovery(nodes(shares@), data(shares@), threshold as nat, image@) == Ok::<
                int,
                Error,
            >(secret@ as int),
            Err(e) => recovery(nodes(shares@), data(shares@), threshold as nat, image@) == Err::<
                int,
                Error,
            >(e),
        },
        forall|f: Seq<Scalar>|
            f.len() <= threshold <= shares@.len() && distinct(
                nodes(shares@).subrange(0, threshold as int),
            ) && (forall|n: int|
                0 <= n < threshold ==> (#[trigger] shares@[n]).1@ == poly_eval(
                    f,
                    shares@[n].0 as int,
                )) && image@ == base_mul(#[trigger] poly_eval(f, 0)) ==> match result {
                Ok(secret) => secret@ == poly_eval(f, 0),
                Err(_) => false,
            },
{
    if shares.len() < threshold {
        return Err(Error::NotEnoughShares);
    }
    let used = slice_subrange(shares, 0, threshold);
    assert(nodes(used@) =~= nodes(shares@).subrange(0, threshold as int));
    assert(data(used@) =~= data(shares@).subrange(0, threshold as int));
    match interpolate_at_zero(used) {
        None => Err(Error::NotEnoughShares),
        Some(secret) => {
            proof {
                assert forall|f: Seq<Scalar>|
                    f.len() <= threshold && (forall|n: int|
                        0 <= n < threshold ==> (#[trigger] shares@[n]).1@ == poly_eval(
                            f,
                            shares@[n].0 as int,
                        )) implies secret@ == #[trigger] poly_eval(f, 0) by {
                    assert forall|n: int| 0 <= n < used@.len() implies (#[trigger] used@[n]).1@
                        == poly_eval(f, used@[n].0 as int) by {
                        assert(used@[n] == shares@[n]);
                    }
                }
            }
            if Point::base_mul(&secret).equals(image) {
                Ok(secret)
            } else {
                Err(Error::WrongSecret)
            }
        },
    }
}

/// The bucket that holds the share of an oracle for an outcome: the
/// buckets of one outcome follow each other, one for each oracle.
pub open spec fn bucket_of(outcome_index: int, oracle_index: int, n_oracles: int) -> int {
    outcome_index * n_oracles + oracle_index
}

/// The shares that the first `upto` attestations open, as nodes and values:
/// an attestation (oracle, σ) opens the share of its oracle, with the node
/// oracle + 1, if the oracle is one of the n and its bucket gives a secret
/// with the share's image for the key σ.
pub open spec fn opened_shares(
    buckets: Seq<Seq<Entry>>,
    outcome_index: int,
    n_oracles: int,
    attestations: Seq<(usize, Scalar)>,
    share_images: Seq<Point>,
    upto: nat,
) -> (Seq<int>, Seq<int>)
    decreases upto,
{
    if upto == 0 {
        (Seq::empty(), Seq::empty())
    } else {
        let before = opened_shares(
            buckets,
            outcome_index,
            n_oracles,
            attestations,
            share_images,
            (upto - 1) as nat,
        );
        let oracle = attestations[upto - 1].0 as int;
        let bucket = bucket_of(outcome_index, oracle, n_oracles);
        if oracle < n_oracles && oracle < share_images.len() && oracle < u32::MAX && bucket
            < buckets.len() {
            match bucket_secret(
                buckets[bucket],
                attestations[upto - 1].1@,
                share_images[oracle]@,
                buckets[bucket].len(),
            ) {
                Some(share) => (before.0.push(oracle + 1), before.1.push(share as int)),
                None => before,
            }
        } else {
            before
        }
    }
}

/// The attestations are true ones of different oracles in a run that the
/// sender followed, with the polynomial f for the outcome: each is given
/// with an oracle of the n that has a bucket for the outcome, the image of
/// that oracle's share is the image of the value of f at the oracle's
/// node, and the bucket holds an entry that an honest sender makes for
/// that value and the key that the attestation opens.
pub open spec fn honest_attestations(
    buckets: Seq<Seq<Entry>>,
    outcome_index: int,
    n_oracles: int,
    attestations: Seq<(usize, Scalar)>,
    share_images: Seq<Point>,
    f: Seq<Scalar>,
) -> bool {
    &&& forall|i: int, j: int|
        0 <= i < j < attestations.len() ==> attestations[i].0 != attestations[j].0
    &&& forall|i: int|
        0 <= i < attestations.len() ==> {
            let oracle = (#[trigger] attestations[i]).0 as int;
            let bucket = bucket_of(outcome_index, oracle, n_oracles);
            &&& oracle < n_oracles
            &&& oracle < share_images.len()
            &&& oracle < u32::MAX
            &&& bucket < buckets.len()
            &&& share_images[oracle]@ == base_mul(poly_eval(f, oracle + 1))
            &&& holds_honest_entry(buckets[bucket], attestations[i].1@, poly_eval(f, oracle + 1))
        }
}

/// Recovers the secret of an outcome from the attestations of some
/// oracles, each given with the index of its oracle: opens the share of
/// every oracle whose attestation decrypts the oracle's bucket for the
/// outcome, and recovers the secret from the first `threshold` shares.
/// From true attestations of as many different oracles as the threshold
/// asks for, in a run that the sender followed, the secret comes out.
pub fn recover_outcome(
    bob: &Bob2,
    outcome_index: usize,
    n_oracles: usize,
    attestations: &[(usize, Scalar)],
    share_images: &[Point],
    threshold: usize,
    outcome_image: &Point,
    params: &Params,
) -> (result: Result<Scalar, Error>)
    ensures
        ({
            let shares = opened_shares(
                bob.buckets(),
                outcome_index as int,
                n_oracles as int,
                attestations@,
                share_images@,
                attestations@.len(),
            );
            match result {
                Ok(secret) => recovery(shares.0, shares.1, threshold as nat, outcome_image@)
                    == Ok::<int, Error>(secret@ as int),
                Err(e) => recovery(shares.0, shares.1, threshold as nat, outcome_image@) == Err::<
                    int,
                    Error,
                >(e),
            }
        }),
        forall|f: Seq<Scalar>|
            #[trigger] honest_attestations(
                bob.buckets(),
                outcome_index as int,
                n_oracles as int,
                attestations@,
                share_images@,
                f,
            ) && f.len() <= threshold <= attestations@.len() && outcome_image@ == base_mul(
                poly_eval(f, 0),
            ) ==> match result {
                Ok(secret) => secret@ == poly_eval(f, 0),
                Err(_) => false,
            },
{
    let mut shares: Vec<(u32, Scalar)> = Vec::new();
    let mut i: usize = 0;
    while i < attestations.len()
        invariant
            i <= attestations@.len(),
            ({
                let opened = opened_shares(
                    bob.buckets(),
                    outcome_index as int,
                    n_oracles as int,
                    attestations@,
                    share_images@,
                    i as nat,
                );
                nodes(shares@) == opened.0 && data(shares@) == opened.1
            }),
            forall|f: Seq<Scalar>|
                #[trigger] honest_attestations(
                    bob.buckets(),
                    outcome_index as int,
                    n_oracles as int,
                    attestations@,
                    share_images@,
                    f,
                ) ==> shares@.len() == i && forall|n: int|
                    0 <= n < i ==> (#[trigger] shares@[n]).0 == attestations@[n].0 + 1
                        && shares@[n].1@ == poly_eval(f, attestations@[n].0 + 1),
        decreases attestations@.len() - i,
    {
        let (oracle, attestation) = attestations[i];
        let ghost before = shares@;
        if oracle < n_oracles && oracle < share_images.len() && oracle < u32::MAX as usize {
            let bucket: u128 = bucket_index(outcome_index, oracle, n_oracles);
            if bucket < bob.bucket_count() as u128 {
                match bob.decrypt_bucket_with_key(
                    bucket as usize,
                    attestation,
                    share_images[oracle],
                    params,
                ) {
                    Ok(share) => {
                        shares.push(((oracle + 1) as u32, share));
                        assert(nodes(shares@) =~= nodes(before).push(oracle + 1));
                        assert(data(shares@) =~= data(before).push(share@ as int));
                        proof {
                            assert forall|f: Seq<Scalar>|
                                #[trigger] honest_attestations(
                                    bob.buckets(),
                                    outcome_index as int,
                                    n_oracles as int,
                                    attestations@,
                                    share_images@,
                                    f,
                                ) implies share@ == poly_eval(f, oracle + 1) by {
                                let y = poly_eval(f, oracle + 1);
                                assert(attestations@[i as int].0 == oracle);
                                assert(share_images@[oracle as int]@ == base_mul(y));
                            }
                        }
                    },
                    Err(_) => {
                        proof {
                            assert forall|f: Seq<Scalar>|
                                #[trigger] honest_attestations(
                                    bob.buckets(),
                                    outcome_index as int,
                                    n_oracles as int,
                                    attestations@,
                                    share_images@,
                                    f,
                                ) implies false by {
                                let y = poly_eval(f, oracle + 1);
                                assert(attestations@[i as int].0 == oracle);
                                assert(share_images@[oracle as int]@ == base_mul(y));
                            }
                        }
                    },
                }
            } else {
                proof {
                    assert forall|f: Seq<Scalar>|
                        #[trigger] honest_attestations(
                            bob.buckets(),
                            outcome_index as int,
                            n_oracles as int,
                            attestations@,
                            share_images@,
                            f,
                        ) implies false by {
                        assert(attestations@[i as int].0 == oracle);
                    }
                }
            }
        } else {
            proof {
                assert forall|f: Seq<Scalar>|
                    #[trigger] honest_attestations(
                        bob.buckets(),
                        outcome_index as int,
                        n_oracles as int,
                        attestations@,
                        share_images@,
                        f,
                    ) implies false by {
                    assert(attestations@[i as int].0 == oracle);
                }
            }
        }
        i += 1;
    }
    let result = recover_secret(shares.as_slice(), threshold, outcome_image);
    proof {
        assert forall|f: Seq<Scalar>|
            #[trigger] honest_attestations(
                bob.buckets(),
                outcome_index as int,
                n_oracles as int,
                attestations@,
                share_images@,
                f,
            ) && f.len() <= threshold <= attestations@.len() && outcome_image@ == base_mul(
                poly_eval(f, 0),
            ) implies match result {
            Ok(secret) => secret@ == poly_eval(f, 0),
            Err(_) => false,
        } by {
            let xs = nodes(shares@).subrange(0, threshold as int);
            assert forall|a: int, b: int| 0 <= a < b < xs.len() implies xs[a] != xs[b] by {
                assert(shares@[a].0 == attestations@[a].0 + 1);
                assert(shares@[b].0 == attestations@[b].0 + 1);
            }
            assert forall|n: int| 0 <= n < threshold implies (#[trigger] shares@[n]).1@
                == poly_eval(f, shares@[n].0 as int) by {
                assert(shares@[n].0 == attestations@[n].0 + 1);
            }
        }
    }
    result
}

/// The index of the bucket of an oracle for an outcome, in integers wide
/// enough for every pair of them.
fn bucket_index(outcome_index: usize, oracle_index: usize, n_oracles: usize) -> (bucket: u128)
    requires
        oracle_index < n_oracles,
    ensures
        bucket == bucket_of(outcome_index as int, oracle_index as int, n_oracles as int),
{
    let outcome: u128 = outcome_index as u128;
    let n: u128 = n_oracles as u128;
    assert(outcome * n <= 0xffff_ffff_ffff_ffff * 0xffff_ffff_ffff_ffff) by (nonlinear_arith)
        requires
            outcome <= 0xffff_ffff_ffff_ffff,
            n <= 0xffff_ffff_ffff_ffff,
    ;
    outcome * n + oracle_index as u128
}

/// The pad of an outcome under the masks of one oracle: the sum, over the
/// bit positions, of the mask for the value that the outcome has at the
/// position. `masks[b]` holds the masks of position b for the values 0 and 1.
pub open spec fn outcome_pad(masks: Seq<(Scalar, Scalar)>, outcome_index: u32, upto: nat) -> nat
    decreases upto,
{
    if upto == 0 {
        0
    } else {
        let mask = if crate::oracle::bit_of(outcome_index, (upto - 1) as nat) == 1 {
            masks[upto - 1].1
        } else {
            masks[upto - 1].0
        };
        (outcome_pad(masks, outcome_index, (upto - 1) as nat) + mask@) % group_order()
    }
}

/// The pad of an outcome under the masks of one oracle: the sum of the
/// masks along the bits of the outcome, the least significant bit first.
pub fn compute_pad(masks: &[(Scalar, Scalar)], outcome_index: u32) -> (pad: Scalar)
    ensures
        pad.wf(),
        pad@ == outcome_pad(masks@, outcome_index, masks@.len()),
{
    let mut pad = Scalar::zero();
    let mut position: usize = 0;
    while position < masks.len()
        invariant
            position <= masks@.len(),
            pad.wf(),
            pad@ == outcome_pad(masks@, outcome_index, position as nat),
        decreases masks@.len() - position,
    {
        let set = if position < 32 {
            (outcome_index >> (position as u32)) & 1 == 1
        } else {
            false
        };
        let mask = if set {
            masks[position].1
        } else {
            masks[position].0
        };
        pad = pad.add(&mask);
        position += 1;
    }
    pad
}

/// The bucket that holds a mask: the buckets of one oracle follow each
/// other, two for each bit position, the one for the bit value 0 first.
pub open spec fn mask_bucket(oracle_index: int, position: int, value: int, n_bits: int) -> int {
    (oracle_index * n_bits + position) * 2 + value
}

/// The mask that a bucket gives for a key: the secret with the mask's
/// image that the bucket holds for the key, if the bucket exists and holds one.
pub open spec fn opened_mask(buckets: Seq<Seq<Entry>>, bucket: int, key: nat, image: Seq<u8>) -> Option<
    nat,
> {
    if 0 <= bucket < buckets.len() {
        bucket_secret(buckets[bucket], key, image, buckets[bucket].len())
    } else {
        None
    }
}

/// The pad that the attestations of one oracle open over the first `upto`
/// bit positions: the sum of the masks that the buckets of the outcome's
/// bits give, each for the attestation of its position and with the image
/// of the mask; nothing where one of the buckets gives no such mask.
pub open spec fn opened_pad(
    buckets: Seq<Seq<Entry>>,
    oracle_index: int,
    outcome_index: u32,
    attestations: Seq<Scalar>,
    mask_images: Seq<(Point, Point)>,
    upto: nat,
) -> Option<nat>
    decreases upto,
{
    if upto == 0 {
        Some(0)
    } else {
        match opened_pad(
            buckets,
            oracle_index,
            outcome_index,
            attestations,
            mask_images,
            (upto - 1) as nat,
        ) {
            None => None,
            Some(pad) => {
                let set = crate::oracle::bit_of(outcome_index, (upto - 1) as nat) == 1;
                let bucket = mask_bucket(
                    oracle_index,
                    upto - 1,
                    if set {
                        1
                    } else {
                        0
                    },
                    attestations.len() as int,
                );
                let image = if set {
                    mask_images[upto - 1].1
                } else {
                    mask_images[upto - 1].0
                };
                match opened_mask(buckets, bucket, attestations[upto - 1]@, image@) {
                    Some(mask) => Some((pad + mask) % group_order()),
                    None => None,
                }
            },
        }
    }
}

/// Once a bucket gives no mask, no pad is opened whatever follows.
proof fn lemma_opened_pad_stays(
    buckets: Seq<Seq<Entry>>,
    oracle_index: int,
    outcome_index: u32,
    attestations: Seq<Scalar>,
    mask_images: Seq<(Point, Point)>,
    upto: nat,
    later: nat,
)
    requires
        upto <= later,
        opened_pad(buckets, oracle_index, outcome_index, attestations, mask_images, upto) is None,
    ensures
        opened_pad(buckets, oracle_index, outcome_index, attestations, mask_images, later) is None,
    decreases later,
{
    if upto < later {
        lemma_opened_pad_stays(
            buckets,
            oracle_index,
            outcome_index,
            attestations,
            mask_images,
            upto,
            (later - 1) as nat,
        );
    }
}

/// Decrypts the bucket of the mask of one oracle for one bit position and
/// one bit value, with an attestation as the key.
fn open_mask(
    bob: &Bob2,
    oracle_index: usize,
    position: usize,
    n_bits: usize,
    set: bool,
    attestation: &Scalar,
    image: &Point,
    params: &Params,
) -> (mask: Option<Scalar>)
    requires
        position < n_bits,
    ensures
        match mask {
            Some(m) => m.wf() && opened_mask(
                bob.buckets(),
                mask_bucket(
                    oracle_index as int,
                    position as int,
                    if set {
                        1
                    } else {
                        0
                    },
                    n_bits as int,
                ),
                attestation@,
                image@,
            ) == Some(m@),
            None => opened_mask(
                bob.buckets(),
                mask_bucket(
                    oracle_index as int,
                    position as int,
                    if set {
                        1
                    } else {
                        0
                    },
                    n_bits as int,
                ),
                attestation@,
                image@,
            ) is None,
        },
{
    let count = bob.bucket_count();
    let place: u128 = bucket_index(oracle_index, position, n_bits);
    if place >= count as u128 {
        return None;
    }
    let bucket: u128 = place * 2 + if set {
        1
    } else {
        0
    };
    if bucket >= count as u128 {
        return None;
    }
    match bob.decrypt_bucket_with_key(bucket as usize, *attestation, *image, params) {
        Ok(mask) => {
            proof {
                use_type_invariant(&mask);
            }
            Some(mask)
        },
        Err(_) => None,
    }
}

/// Recovers the share of one oracle for an outcome from the oracle's
/// attestations, one for each bit position: decrypts, for each position,
/// the bucket of the mask for the outcome's bit there, sums the masks to
/// the pad, and takes the pad off the share that was sent under it. The
/// images of the masks come in pairs, for the bit values 0 and 1, one pair
/// for each position.
pub fn recover_masked_share(
    bob: &Bob2,
    oracle_index: usize,
    outcome_index: u32,
    attestations: &[Scalar],
    mask_images: &[(Point, Point)],
    masked_share: &Scalar,
    params: &Params,
) -> (result: Result<Scalar, Error>)
    ensures
        match result {
            Ok(share) => {
                &&& mask_images@.len() == attestations@.len()
                &&& opened_pad(
                    bob.buckets(),
                    oracle_index as int,
                    outcome_index,
                    attestations@,
                    mask_images@,
                    attestations@.len(),
                ) is Some
                &&& share@ == (masked_share@ - opened_pad(
                    bob.buckets(),
                    oracle_index as int,
                    outcome_index,
                    attestations@,
                    mask_images@,
                    attestations@.len(),
                ).unwrap()) % (group_order() as int)
            },
            Err(Error::WrongMessageLength) => mask_images@.len() != attestations@.len(),
            Err(Error::MaliciousEncryption) => {
                &&& mask_images@.len() == attestations@.len()
                &&& opened_pad(
                    bob.buckets(),
                    oracle_index as int,
                    outcome_index,
                    attestations@,
                    mask_images@,
                    attestations@.len(),
                ) is None
            },
            Err(_) => false,
        },
{
    if mask_images.len() != attestations.len() {
        return Err(Error::WrongMessageLength);
    }
    let n_bits = attestations.len();
    let mut pad = Scalar::zero();
    let mut position: usize = 0;
    while position < n_bits
        invariant
            position <= n_bits,
            n_bits == attestations@.len(),
            n_bits == mask_images@.len(),
            pad.wf(),
            opened_pad(
                bob.buckets(),
                oracle_index as int,
                outcome_index,
                attestations@,
                mask_images@,
                position as nat,
            ) == Some(pad@),
        decreases n_bits - position,
    {
        let set = if position < 32 {
            (outcome_index >> (position as u32)) & 1 == 1
        } else {
            false
        };
        let image = if set {
            mask_images[position].1
        } else {
            mask_images[position].0
        };
        let opened = open_mask(
            bob,
            oracle_index,
            position,
            n_bits,
            set,
            &attestations[position],
            &image,
            params,
        );
        match opened {
            Some(mask) => {
                pad = pad.add(&mask);
            },
            None => {
                proof {
                    lemma_opened_pad_stays(
                        bob.buckets(),
                        oracle_index as int,
                        outcome_index,
                        attestations@,
                        mask_images@,
                        (position + 1) as nat,
                        n_bits as nat,
                    );
                }
                return Err(Error::MaliciousEncryption);
            },
        }
        position += 1;
    }
    Ok(masked_share.sub(&pad))
}

} // verus!
