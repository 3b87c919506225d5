//! The sumcheck of a product of two multilinear polynomials, highest variable first.
use crate::arith;
use crate::ext;
use crate::ext::EF;
use crate::field;
use crate::field::{F, MODULUS};
use crate::lean_air::rounds;
use crate::mle;
use crate::poly;
use crate::poly::DensePolynomial;
use crate::sums;
use vstd::arithmetic::power2::*;
use vstd::prelude::*;

verus! {

/// Values that stand for elements of the extension field.
pub trait Element: Sized + Copy {
    /// The element.
    spec fn element(self) -> EF;

    /// The element.
    fn to_extension(self) -> (r: EF)
        ensures
            r == self.element(),
    ;
}

impl Element for F {
    open spec fn element(self) -> EF {
        EF::from_base_spec(self)
    }

    fn to_extension(self) -> (r: EF) {
        EF::from_base(self)
    }
}

impl Element for EF {
    open spec fn element(self) -> EF {
        self
    }

    fn to_extension(self) -> (r: EF) {
        self
    }
}

/// The elements that values stand for.
pub open spec fn elements<T: Element>(values: Seq<T>) -> Seq<EF> {
    Seq::new(values.len(), |i: int| values[i].element())
}

/// The computation whose sum is claimed: the product of two values.
#[derive(Clone, Copy, Debug, PartialEq, Eq, Structural)]
pub struct ProductComputation;

impl ProductComputation {
    /// The degree.
    pub fn degree(&self) -> (r: usize)
        ensures
            r == 2,
    {
        2
    }

    /// The product of the two values of a point.
    pub fn eval_extension(&self, point: &Vec<EF>) -> (r: EF)
        requires
            point@.len() >= 2,
        ensures
            r == point@[0] * point@[1],
    {
        point[0].mul(point[1])
    }
}

/// The constant and the quadratic coefficient of the product of the lines through two pairs.
pub fn sumcheck_quadratic<T: Element>(x_0: T, x_1: T, y_0: EF, y_1: EF) -> (r: (EF, EF))
    ensures
        r.0 == y_0 * x_0.element(),
        r.1 == (y_1 - y_0) * (x_1.element() - x_0.element()),
{
    let a = x_0.to_extension();
    let b = x_1.to_extension();
    (y_0.mul(a), y_1.sub(y_0).mul(b.sub(a)))
}

/// The constant coefficient of a round.
pub open spec fn constant_part(p0: Seq<EF>, p1: Seq<EF>) -> EF {
    sums::sum((p0.len() / 2) as nat, |i: int| p1[i] * p0[i])
}

/// The quadratic coefficient of a round.
pub open spec fn quadratic_part(p0: Seq<EF>, p1: Seq<EF>) -> EF {
    let h: int = p0.len() as int / 2;
    sums::sum(h as nat, |i: int| (p1[i + h] - p1[i]) * (p0[i + h] - p0[i]))
}

/// The coefficients of a round with the claimed sum `sum`: the values at zero and one add up to it.
pub open spec fn round_coefficients(p0: Seq<EF>, p1: Seq<EF>, sum: EF) -> Seq<EF> {
    let c0 = constant_part(p0, p1);
    let c2 = quadratic_part(p0, p1);
    seq![c0, sum - (c0 + c0) - c2, c2]
}

/// The sum over the pairs of halves of the products of the lines through them.
pub open spec fn halves_round(p0: Seq<EF>, p1: Seq<EF>, x: EF) -> EF {
    let h: int = p0.len() as int / 2;
    sums::sum(h as nat, |i: int| rounds::line(p0[i], p0[i + h], x) * rounds::line(p1[i], p1[i + h], x))
}

/// The sum of the products.
pub open spec fn inner_product(p0: Seq<EF>, p1: Seq<EF>) -> EF {
    sums::sum(p0.len(), |i: int| p0[i] * p1[i])
}

/// The values with the highest variable set to `r`.
pub open spec fn folded_high(p: Seq<EF>, r: EF) -> Seq<EF> {
    Seq::new((p.len() / 2) as nat, |i: int| rounds::line(p[i], p[i + p.len() as int / 2], r))
}

/// The values with their variables set to `challenges`, highest first.
pub open spec fn folded_high_by(p: Seq<EF>, challenges: Seq<EF>) -> Seq<EF>
    decreases challenges.len(),
{
    if challenges.len() == 0 {
        p
    } else {
        folded_high(folded_high_by(p, challenges.drop_last()), challenges.last())
    }
}

/// The values at zero and one of a polynomial with three coefficients.
proof fn lemma_three_at(c0: EF, c1: EF, c2: EF, x: EF)
    ensures
        poly::poly_at(seq![c0, c1, c2], x) == c0 + x * (c1 + x * (c2 + EF::zero_spec())),
{
    let c = seq![c0, c1, c2];
    let t = c.drop_first();
    let u = t.drop_first();
    assert(t =~= seq![c1, c2]);
    assert(u =~= seq![c2]);
    assert(u.drop_first() =~= Seq::<EF>::empty());
    assert(poly::poly_at(Seq::<EF>::empty(), x) == EF::zero_spec());
    ext::lemma_mul_zero(x);
    assert(poly::poly_at(u, x) == c2 + EF::zero_spec());
    assert(poly::poly_at(t, x) == c1 + x * poly::poly_at(u, x));
}

/// The values of a round at zero and one add up to the claimed sum.
pub proof fn law_round_values_add_up(p0: Seq<EF>, p1: Seq<EF>, sum: EF)
    requires
        sum.canonical(),
    ensures
        poly::poly_at(round_coefficients(p0, p1, sum), EF::zero_spec()) + poly::poly_at(
            round_coefficients(p0, p1, sum),
            EF::one_spec(),
        ) == sum,
{
    let c0 = constant_part(p0, p1);
    let c2 = quadratic_part(p0, p1);
    let h: int = p0.len() as int / 2;
    sums::lemma_sum_canonical(h as nat, |i: int| p1[i] * p0[i]);
    sums::lemma_sum_canonical(h as nat, |i: int| (p1[i + h] - p1[i]) * (p0[i + h] - p0[i]));
    let d = c0 + c0;
    let c1 = sum - d - c2;
    let zero = EF::zero_spec();
    let one = EF::one_spec();
    lemma_three_at(c0, c1, c2, zero);
    lemma_three_at(c0, c1, c2, one);
    ext::lemma_add_zero(c2);
    ext::lemma_mul_zero(c1 + zero * c2);
    ext::lemma_add_zero(c0);
    ext::lemma_mul_one(c2);
    ext::lemma_add_canonical(sum - d, c2);
    ext::lemma_add_canonical(c1, c2);
    ext::lemma_mul_one(c1 + c2);
    ext::lemma_add_canonical(sum, d);
    ext::lemma_sub_add_cancel(sum - d, c2);
    assert(c1 + c2 == sum - d);
    // c0 + (c0 + (sum - d)) == sum
    ext::lemma_add_assoc(c0, c0, sum - d);
    ext::lemma_sub_add_cancel(sum, d);
    ext::lemma_add_comm(sum - d, d);
}

/// With the sum of the products for the claimed sum, the polynomial is the round everywhere.
pub proof fn law_round_of_true_sum(p0: Seq<EF>, p1: Seq<EF>, x: EF)
    requires
        p0.len() == p1.len(),
        p0.len() % 2 == 0,
        forall|i: int| 0 <= i < p0.len() ==> (#[trigger] p0[i]).canonical(),
        forall|i: int| 0 <= i < p1.len() ==> (#[trigger] p1[i]).canonical(),
    ensures
        poly::poly_at(round_coefficients(p0, p1, inner_product(p0, p1)), x) == halves_round(p0, p1, x),
{
    let zero = EF::zero_spec();
    let h: nat = (p0.len() / 2) as nat;
    let hi: int = p0.len() as int / 2;
    let c0 = constant_part(p0, p1);
    let c2 = quadratic_part(p0, p1);
    let f0 = |i: int| p1[i] * p0[i];
    let f2 = |i: int| (p1[i + h] - p1[i]) * (p0[i + h] - p0[i]);
    let f1 = |i: int| (p1[i + h] * p0[i + h] - (f0(i) + f0(i))) + (f0(i) - f2(i));
    let c1 = inner_product(p0, p1) - (c0 + c0) - c2;
    // The linear coefficient, term by term.
    let g = |i: int| p0[i] * p1[i];
    sums::lemma_sum_split(h, h, g);
    let gh = |i: int| g(h + i);
    let high = |i: int| p1[i + h] * p0[i + h];
    assert forall|i: int| 0 <= i < h implies #[trigger] gh(i) == high(i) by {
        ext::lemma_mul_comm(p0[i + h], p1[i + h]);
    }
    assert forall|i: int| 0 <= i < h implies #[trigger] g(i) == f0(i) by {
        ext::lemma_mul_comm(p0[i], p1[i]);
    }
    sums::lemma_sum_ext(h, gh, high);
    sums::lemma_sum_ext(h, g, f0);
    let s_high = sums::sum(h, high);
    sums::lemma_sum_canonical(h, f0);
    sums::lemma_sum_canonical(h, f2);
    sums::lemma_sum_canonical(h, high);
    sums::lemma_sum_ext(h, f2, |i: int| (p1[i + hi] - p1[i]) * (p0[i + hi] - p0[i]));
    assert(c2 == sums::sum(h, f2));
    let both = |i: int| f0(i) + f0(i);
    sums::lemma_sum_add(h, f0, f0);
    let left = |i: int| high(i) - both(i);
    let right = |i: int| f0(i) - f2(i);
    sums::lemma_sum_sub(h, high, both);
    sums::lemma_sum_sub(h, f0, f2);
    let all = |i: int| left(i) + right(i);
    sums::lemma_sum_add(h, left, right);
    sums::lemma_sum_ext(h, all, f1);
    // (c0 + s_high) - (c0 + c0) - c2 == (s_high - (c0 + c0)) + (c0 - c2)
    let d = c0 + c0;
    lemma_rearrange(c0, s_high, d, c2);
    assert(c1 == sums::sum(h, f1));
    // The terms of the round.
    let t = |i: int| rounds::line(p0[i], p0[i + h], x) * rounds::line(p1[i], p1[i + h], x);
    let xf1 = |i: int| x * f1(i);
    let xf2 = |i: int| x * f2(i);
    let xxf2 = |i: int| x * xf2(i);
    let low = |i: int| f0(i) + xf1(i);
    let target = |i: int| low(i) + xxf2(i);
    assert forall|i: int| 0 <= i < h implies #[trigger] t(i) == target(i) by {
        assert(p0[i].canonical() && p1[i].canonical() && p0[i + h].canonical() && p1[i + h].canonical());
        lemma_product_of_lines(p0[i], p0[i + h], p1[i], p1[i + h], x);
    }
    sums::lemma_sum_ext(h, t, target);
    sums::lemma_sum_add(h, low, xxf2);
    sums::lemma_sum_add(h, f0, xf1);
    sums::lemma_sum_mul_left(x, h, f1);
    sums::lemma_sum_mul_left(x, h, xf2);
    sums::lemma_sum_mul_left(x, h, f2);
    sums::lemma_sum_ext(h, t, |i: int| rounds::line(p0[i], p0[i + hi], x) * rounds::line(p1[i], p1[i + hi], x));
    assert(halves_round(p0, p1, x) == sums::sum(h, t));
    assert(sums::sum(h, t) == (c0 + x * c1) + x * (x * c2));
    // c0 + x (c1 + x c2)
    lemma_three_at(c0, c1, c2, x);
    ext::lemma_add_zero(c2);
    ext::lemma_mul_distrib_right(x, c1, x * c2);
    ext::lemma_add_assoc(c0, x * c1, x * (x * c2));
}

/// `(a + s) - d - q` rearranged.
proof fn lemma_rearrange(a: EF, s: EF, d: EF, q: EF)
    ensures
        (a + s) - d - q == (s - d) + (a - q),
{
    let nd = d.negate_spec();
    let nq = q.negate_spec();
    ext::lemma_sub_is_add_neg(a + s, d);
    ext::lemma_sub_is_add_neg((a + s) - d, q);
    ext::lemma_sub_is_add_neg(s, d);
    ext::lemma_sub_is_add_neg(a, q);
    ext::lemma_add_comm(a, s);
    ext::lemma_add_assoc(s, a, nd);
    ext::lemma_add_comm(a, nd);
    ext::lemma_add_assoc(s, nd, a);
    ext::lemma_add_assoc(s + nd, a, nq);
}

/// The product of two lines by its coefficients.
proof fn lemma_product_of_lines(x0: EF, x1: EF, y0: EF, y1: EF, x: EF)
    requires
        x0.canonical(),
        x1.canonical(),
        y0.canonical(),
        y1.canonical(),
    ensures
        rounds::line(x0, x1, x) * rounds::line(y0, y1, x) == (y0 * x0 + x * ((y1 * x1 - (y0 * x0 + y0 * x0)) + (y0
            * x0 - (y1 - y0) * (x1 - x0)))) + x * (x * ((y1 - y0) * (x1 - x0))),
{
    let a = y0 * x0;
    let b = y1 * x1;
    let dx = x1 - x0;
    let dy = y1 - y0;
    let q = dy * dx;
    let m = y0 * dx + dy * x0;
    // (x0 + x dx)(y0 + x dy) by the coefficients a, m, q
    let u = x * dx;
    let w = x * dy;
    ext::lemma_mul_distrib_left(x0, u, y0 + w);
    ext::lemma_mul_distrib_right(x0, y0, w);
    ext::lemma_mul_distrib_right(u, y0, w);
    ext::lemma_mul_comm(x0, y0);
    // x0 w == x (dy x0)
    ext::lemma_mul_comm(x0, w);
    ext::lemma_mul_assoc(x, dy, x0);
    // u y0 == x (y0 dx)
    ext::lemma_mul_assoc(x, dx, y0);
    ext::lemma_mul_comm(dx, y0);
    // u w == x (x q)
    ext::lemma_mul_assoc(x, dx, w);
    ext::lemma_mul_comm(dx, w);
    ext::lemma_mul_assoc(x, dy, dx);
    let p = x * (dy * x0);
    let r = x * (y0 * dx);
    let t = x * (x * q);
    // (a + p) + (r + t) == (a + (r + p)) + t
    ext::lemma_add_assoc(a, p, r + t);
    ext::lemma_add_assoc(p, r, t);
    ext::lemma_add_comm(p, r);
    ext::lemma_add_assoc(a, r + p, t);
    ext::lemma_mul_distrib_right(x, y0 * dx, dy * x0);
    // m == (b - (a + a)) + (a - q)
    lemma_middle(x0, x1, y0, y1);
}

/// The linear coefficient of the product of two lines.
proof fn lemma_middle(x0: EF, x1: EF, y0: EF, y1: EF)
    requires
        x0.canonical(),
        x1.canonical(),
        y0.canonical(),
        y1.canonical(),
    ensures
        y0 * (x1 - x0) + (y1 - y0) * x0 == (y1 * x1 - (y0 * x0 + y0 * x0)) + (y0 * x0 - (y1 - y0) * (x1 - x0)),
{
    let a = y0 * x0;
    let b = y1 * x1;
    let c = y0 * x1;
    let d = y1 * x0;
    let na = a.negate_spec();
    ext::lemma_mul_distrib_sub_right(y0, x1, x0);
    ext::lemma_mul_distrib_sub_left(y1, y0, x0);
    ext::lemma_mul_distrib_sub_right(y1 - y0, x1, x0);
    ext::lemma_mul_distrib_sub_left(y1, y0, x1);
    ext::lemma_mul_canonical(y0, x0);
    ext::lemma_mul_canonical(y1, x1);
    ext::lemma_mul_canonical(y0, x1);
    ext::lemma_mul_canonical(y1, x0);
    // Left: (c - a) + (d - a). Right: (b - (a + a)) + (a - ((b - c) - (d - a))).
    let l = (c - a) + (d - a);
    ext::lemma_sub_exchange(c, d, a, a);
    assert(l == (c + d) - (a + a));
    let q = (b - c) - (d - a);
    // q + (c + d) == b + a
    ext::lemma_sub_exchange(b, a, c, d);
    lemma_two_differences(b, c, d, a);
    assert(q == (b + a) - (c + d));
    // (b - (a + a)) + (a - q) == (b + a) - (a + a) - q
    ext::lemma_add_comm(a, b);
    lemma_rearrange(a, b, a + a, q);
    let s = b + a;
    let e = c + d;
    ext::lemma_add_canonical(b, a);
    ext::lemma_add_canonical(c, d);
    // (s - (a + a)) - (s - e) == e - (a + a)
    lemma_cancel(s, a + a, e);
}

/// `(b - c) - (d - a)` is `(b + a) - (c + d)`.
proof fn lemma_two_differences(b: EF, c: EF, d: EF, a: EF)
    ensures
        (b - c) - (d - a) == (b + a) - (c + d),
{
    let na = a.negate_spec();
    ext::lemma_sub_is_add_neg(b - c, d - a);
    ext::lemma_sub_is_add_neg(d, a);
    ext::lemma_negate_add(d, na);
    ext::lemma_negate_is_scale(a);
    ext::lemma_negate_is_scale(na);
    ext::lemma_scale_scale(a, F::of(-1), F::of(-1));
    field::lemma_of_mul(-1, -1);
    // -(d - a) == -d + a, up to the canonical value of a
    ext::lemma_sub_is_add_neg(b, c);
    ext::lemma_sub_is_add_neg(b + a, c + d);
    ext::lemma_negate_add(c, d);
    let nb = b;
    let nc = c.negate_spec();
    let nd = d.negate_spec();
    let aa = na.negate_spec();
    ext::lemma_add_exchange(b, nc, aa, nd);
    ext::lemma_add_comm(nd, aa);
    lemma_double_negative(a, b);
}

/// A double negative in a sum.
proof fn lemma_double_negative(a: EF, b: EF)
    ensures
        b + a.negate_spec().negate_spec() == b + a,
{
    let z = EF::zero_spec();
    let n = a.negate_spec();
    let nn = n.negate_spec();
    // Both differ from b by n.
    ext::lemma_negate_add_self(n);
    ext::lemma_negate_add_self(a);
    ext::lemma_add_canonical(b, nn);
    ext::lemma_add_canonical(b, a);
    ext::lemma_add_zero(b + nn);
    ext::lemma_add_assoc(b, nn, n);
    ext::lemma_add_comm(n, a);
    ext::lemma_add_assoc(b + nn, n, a);
    ext::lemma_add_assoc(b + nn, a, n);
    ext::lemma_add_comm(a, n);
    // ((b + nn) + n) + a == (b + 0) + a
    ext::lemma_add_assoc(b, z, a);
    ext::lemma_add_comm(z, a);
    ext::lemma_add_assoc(b, a, z);
    ext::lemma_add_zero(b + a);
}

/// `(s - d) - (s - e)` is `e - d`.
proof fn lemma_cancel(s: EF, d: EF, e: EF)
    ensures
        (s - d) - (s - e) == e - d,
{
    lemma_two_differences(s, d, s, e);
    ext::lemma_add_comm(s, e);
    ext::lemma_add_comm(d, s);
    ext::lemma_sub_exchange(s, e, s, d);
    ext::lemma_sub_self(s);
    ext::lemma_add_canonical(e, d);
    ext::lemma_add_zero(e - d);
    ext::lemma_add_comm(EF::zero_spec(), e - d);
}

/// The polynomial of a round from its two outer coefficients.
fn round_polynomial(c0: EF, c2: EF, sum: EF) -> (r: DensePolynomial)
    ensures
        r.coeffs@ == seq![c0, sum - (c0 + c0) - c2, c2],
{
    let c1 = sum.sub(c0.double()).sub(c2);
    let mut coeffs: Vec<EF> = Vec::new();
    coeffs.push(c0);
    coeffs.push(c1);
    coeffs.push(c2);
    assert(coeffs@ =~= seq![c0, sum - (c0 + c0) - c2, c2]);
    DensePolynomial { coeffs }
}

/// The polynomial of a round, with the claimed sum.
pub fn compute_product_sumcheck_polynomial<T: Element>(pol_0: &Vec<T>, pol_1: &Vec<EF>, sum: EF) -> (r: DensePolynomial)
    requires
        pol_0@.len() == pol_1@.len(),
        arith::is_power(pol_0@.len()),
    ensures
        r.coeffs@ == round_coefficients(elements(pol_0@), pol_1@, sum),
{
    let n: usize = pol_0.len();
    let half: usize = n / 2;
    let ghost p0 = elements(pol_0@);
    let ghost h: int = half as int;
    let ghost f0 = |i: int| pol_1@[i] * p0[i];
    let ghost f2 = |i: int| (pol_1@[i + h] - pol_1@[i]) * (p0[i + h] - p0[i]);
    let mut c0 = EF::zero();
    let mut c2 = EF::zero();
    let mut i: usize = 0;
    while i < half
        invariant
            i <= half,
            half == n / 2,
            h == half,
            n == pol_0@.len(),
            n == pol_1@.len(),
            p0 == elements(pol_0@),
            f0 == (|i: int| pol_1@[i] * p0[i]),
            f2 == (|i: int| (pol_1@[i + h] - pol_1@[i]) * (p0[i + h] - p0[i])),
            c0 == sums::sum(i as nat, f0),
            c2 == sums::sum(i as nat, f2),
        decreases half - i,
    {
        let (b0, b2) = sumcheck_quadratic(pol_0[i], pol_0[i + half], pol_1[i], pol_1[i + half]);
        c0 = c0.add(b0);
        c2 = c2.add(b2);
        i = i + 1;
    }
    round_polynomial(c0, c2, sum)
}

/// One coefficient of a term of the constant coefficient.
proof fn lemma_constant_limb(x: F, y: EF, j: int)
    requires
        0 <= j < 5,
    ensures
        (y * EF::from_base_spec(x)).limb_spec(j) == F::of(y.limb_spec(j).val() * x.val()),
{
    ext::lemma_scale_is_mul(y, x);
}

/// One coefficient of a term of the quadratic coefficient.
proof fn lemma_quadratic_limb(x0: F, x1: F, y0: EF, y1: EF, j: int)
    requires
        0 <= j < 5,
        x0.canonical(),
        x1.canonical(),
        y0.canonical(),
        y1.canonical(),
    ensures
        ((y1 - y0) * (EF::from_base_spec(x1) - EF::from_base_spec(x0))).limb_spec(j) == F::of(
            (y1.limb_spec(j).val() - y0.limb_spec(j).val()) * (x1.val() - x0.val()),
        ),
{
    ext::lemma_from_base_ring(x1, x0);
    ext::lemma_scale_is_mul(y1 - y0, x1 - x0);
    let a = y1.limb_spec(j);
    let b = y0.limb_spec(j);
    assert((y1 - y0).limb_spec(j) == a - b);
    field::lemma_of_mul(a.val() - b.val(), x1.val() - x0.val());
}

/// The polynomial of a round with base field values, computed on representatives that are reduced
/// once at the end.
pub fn compute_product_sumcheck_polynomial_base_ext_packed(pol_0: &Vec<F>, pol_1: &Vec<EF>, sum: EF) -> (r:
    DensePolynomial)
    requires
        pol_0@.len() == pol_1@.len(),
        arith::is_power(pol_0@.len()),
    ensures
        r.coeffs@ == round_coefficients(elements(pol_0@), pol_1@, sum),
{
    let n: usize = pol_0.len();
    let half: usize = n / 2;
    let ghost p0 = elements(pol_0@);
    let ghost h: int = half as int;
    let ghost f0 = |i: int| pol_1@[i] * p0[i];
    let ghost f2 = |i: int| (pol_1@[i + h] - pol_1@[i]) * (p0[i + h] - p0[i]);
    let mut c0: [u128; 5] = [0u128; 5];
    let mut c2: [i128; 5] = [0i128; 5];
    let mut i: usize = 0;
    while i < half
        invariant
            i <= half,
            half == n / 2,
            h == half,
            n == pol_0@.len(),
            n == pol_1@.len(),
            p0 == elements(pol_0@),
            f0 == (|i: int| pol_1@[i] * p0[i]),
            f2 == (|i: int| (pol_1@[i + h] - pol_1@[i]) * (p0[i + h] - p0[i])),
            forall|j: int| 0 <= j < 5 ==> #[trigger] c0@[j] <= i * 0x4000_0000_0000_0000,
            forall|j: int|
                0 <= j < 5 ==> -(i * 0x4000_0000_0000_0000) <= #[trigger] c2@[j] <= i * 0x4000_0000_0000_0000,
            forall|j: int| 0 <= j < 5 ==> F::of(#[trigger] c0@[j] as int) == sums::sum(i as nat, f0).limb_spec(j),
            forall|j: int| 0 <= j < 5 ==> F::of(#[trigger] c2@[j] as int) == sums::sum(i as nat, f2).limb_spec(j),
        decreases half - i,
    {
        let a0 = pol_0[i];
        let a1 = pol_0[i + half];
        let b0 = pol_1[i];
        let b1 = pol_1[i + half];
        b0.assert_canonical();
        b1.assert_canonical();
        let x0: u32 = a0.as_u32();
        let x1: u32 = a1.as_u32();
        let ghost s0 = sums::sum(i as nat, f0);
        let ghost s2 = sums::sum(i as nat, f2);
        let mut j: usize = 0;
        while j < 5
            invariant
                j <= 5,
                i < half,
                half <= usize::MAX,
                h == half,
                x0 == a0.val(),
                x1 == a1.val(),
                a0.canonical(),
                a1.canonical(),
                b0.canonical(),
                b1.canonical(),
                x0 < MODULUS,
                x1 < MODULUS,
                s0 == sums::sum(i as nat, f0),
                s2 == sums::sum(i as nat, f2),
                f0(i as int) == b0 * EF::from_base_spec(a0),
                f2(i as int) == (b1 - b0) * (EF::from_base_spec(a1) - EF::from_base_spec(a0)),
                forall|m: int| 0 <= m < j ==> #[trigger] c0@[m] <= (i + 1) * 0x4000_0000_0000_0000,
                forall|m: int| j <= m < 5 ==> #[trigger] c0@[m] <= i * 0x4000_0000_0000_0000,
                forall|m: int|
                    0 <= m < j ==> -((i + 1) * 0x4000_0000_0000_0000) <= #[trigger] c2@[m] <= (i + 1)
                        * 0x4000_0000_0000_0000,
                forall|m: int|
                    j <= m < 5 ==> -(i * 0x4000_0000_0000_0000) <= #[trigger] c2@[m] <= i * 0x4000_0000_0000_0000,
                forall|m: int|
                    j <= m < 5 ==> F::of(#[trigger] c0@[m] as int) == s0.limb_spec(m),
                forall|m: int|
                    j <= m < 5 ==> F::of(#[trigger] c2@[m] as int) == s2.limb_spec(m),
                forall|m: int|
                    0 <= m < j ==> F::of(#[trigger] c0@[m] as int) == (s0 + f0(i as int)).limb_spec(m),
                forall|m: int|
                    0 <= m < j ==> F::of(#[trigger] c2@[m] as int) == (s2 + f2(i as int)).limb_spec(m),
            decreases 5 - j,
        {
            let y0: u32 = b0.limb(j).as_u32();
            let y1: u32 = b1.limb(j).as_u32();
            proof {
                assert(y0 * x0 <= 0x4000_0000_0000_0000) by (nonlinear_arith)
                    requires
                        y0 < 2130706433,
                        x0 < 2130706433,
                ;
                let dy: int = y1 - y0;
                let dx: int = x1 - x0;
                assert(-0x4000_0000_0000_0000 <= dy * dx <= 0x4000_0000_0000_0000) by (nonlinear_arith)
                    requires
                        -2130706433 < dy < 2130706433,
                        -2130706433 < dx < 2130706433,
                ;
                lemma_constant_limb(a0, b0, j as int);
                lemma_quadratic_limb(a0, a1, b0, b1, j as int);
                field::lemma_of_add(c0@[j as int] as int, y0 * x0);
                field::lemma_of_add(c2@[j as int] as int, dy * dx);
            }
            let product: u64 = y0 as u64 * x0 as u64;
            let dy: i128 = (y1 as i64 - y0 as i64) as i128;
            let dx: i128 = (x1 as i64 - x0 as i64) as i128;
            c0[j] = c0[j] + product as u128;
            c2[j] = c2[j] + dy * dx;
            j = j + 1;
        }
        i = i + 1;
    }
    let c0_sum = EF::from_basis_coefficients(
        [
            F::reduce_product_sum(c0[0]),
            F::reduce_product_sum(c0[1]),
            F::reduce_product_sum(c0[2]),
            F::reduce_product_sum(c0[3]),
            F::reduce_product_sum(c0[4]),
        ],
    );
    let c2_sum = EF::from_basis_coefficients(
        [
            F::reduce_signed_product_sum(c2[0]),
            F::reduce_signed_product_sum(c2[1]),
            F::reduce_signed_product_sum(c2[2]),
            F::reduce_signed_product_sum(c2[3]),
            F::reduce_signed_product_sum(c2[4]),
        ],
    );
    proof {
        let s0 = sums::sum(half as nat, f0);
        let s2 = sums::sum(half as nat, f2);
        assert forall|j: int| 0 <= j < 5 implies #[trigger] c0_sum.limb_spec(j) == s0.limb_spec(j) by {
            assert(F::of(c0@[j] as int) == s0.limb_spec(j));
        }
        assert forall|j: int| 0 <= j < 5 implies #[trigger] c2_sum.limb_spec(j) == s2.limb_spec(j) by {
            assert(F::of(c2@[j] as int) == s2.limb_spec(j));
        }
        lemma_by_limbs(c0_sum, s0);
        lemma_by_limbs(c2_sum, s2);
    }
    round_polynomial(c0_sum, c2_sum, sum)
}

/// Elements with the same coefficients are equal.
proof fn lemma_by_limbs(a: EF, b: EF)
    requires
        forall|j: int| 0 <= j < 5 ==> #[trigger] a.limb_spec(j) == b.limb_spec(j),
    ensures
        a == b,
{
    assert(a.limb_spec(0) == b.limb_spec(0));
    assert(a.limb_spec(1) == b.limb_spec(1));
    assert(a.limb_spec(2) == b.limb_spec(2));
    assert(a.limb_spec(3) == b.limb_spec(3));
    assert(a.limb_spec(4) == b.limb_spec(4));
}

/// The values with the highest variable set to `r`.
pub fn fold_high<T: Element>(values: &Vec<T>, r: EF) -> (out: Vec<EF>)
    ensures
        out@ == folded_high(elements(values@), r),
{
    let n: usize = values.len();
    let half: usize = n / 2;
    let ghost p = elements(values@);
    let mut out: Vec<EF> = Vec::new();
    let mut i: usize = 0;
    while i < half
        invariant
            i <= half,
            half == n / 2,
            n == values@.len(),
            p == elements(values@),
            out@.len() == i,
            forall|m: int| 0 <= m < i ==> #[trigger] out@[m] == rounds::line(p[m], p[m + half], r),
        decreases half - i,
    {
        let a = values[i].to_extension();
        let b = values[i + half].to_extension();
        out.push(a.add(r.mul(b.sub(a))));
        i = i + 1;
    }
    assert(out@ =~= folded_high(p, r));
    out
}

/// Sets the highest variable of both polynomials to the last challenge and gives the polynomial of
/// the next round.
pub fn fold_and_compute_product_sumcheck_polynomial<T: Element>(
    pol_0: &Vec<T>,
    pol_1: &Vec<EF>,
    prev_folding_factor: EF,
    sum: EF,
) -> (r: (DensePolynomial, Vec<EF>, Vec<EF>))
    requires
        pol_0@.len() == pol_1@.len(),
        arith::is_power(pol_0@.len()),
        pol_0@.len() % 4 == 0,
    ensures
        r.1@ == folded_high(elements(pol_0@), prev_folding_factor),
        r.2@ == folded_high(pol_1@, prev_folding_factor),
        r.0.coeffs@ == round_coefficients(r.1@, r.2@, sum),
{
    let folded_0 = fold_high(pol_0, prev_folding_factor);
    let folded_1 = fold_high(pol_1, prev_folding_factor);
    proof {
        assert(elements(pol_1@) =~= pol_1@);
        assert(elements(folded_0@) =~= folded_0@);
        lemma_pow2_pos(choose|k: nat| pol_0@.len() == #[trigger] pow2(k));
        lemma_half_power(pol_0@.len());
    }
    let polynomial = compute_product_sumcheck_polynomial(&folded_0, &folded_1, sum);
    (polynomial, folded_0, folded_1)
}

/// Sets the highest variable of both polynomials to the last challenge in place, and gives the outer
/// coefficients of the next round if they are asked for.
pub fn fold_product_extension_packed_in_place_core(
    pol_0: &mut Vec<EF>,
    pol_1: &mut Vec<EF>,
    prev_folding_factor: EF,
    compute_poly: bool,
) -> (r: (EF, EF))
    requires
        old(pol_0)@.len() == old(pol_1)@.len(),
        arith::is_power(old(pol_0)@.len()),
        old(pol_0)@.len() % 4 == 0,
    ensures
        final(pol_0)@ == folded_high(old(pol_0)@, prev_folding_factor),
        final(pol_1)@ == folded_high(old(pol_1)@, prev_folding_factor),
        compute_poly ==> r.0 == constant_part(final(pol_0)@, final(pol_1)@) && r.1 == quadratic_part(
            final(pol_0)@,
            final(pol_1)@,
        ),
        !compute_poly ==> r.0 == EF::zero_spec() && r.1 == EF::zero_spec(),
{
    let n: usize = pol_0.len();
    let half: usize = n / 2;
    let quarter: usize = n / 4;
    let ghost a = pol_0@;
    let ghost b = pol_1@;
    let ghost fa = folded_high(a, prev_folding_factor);
    let ghost fb = folded_high(b, prev_folding_factor);
    let ghost q: int = quarter as int;
    let ghost f0 = |i: int| fb[i] * fa[i];
    let ghost f2 = |i: int| (fb[i + q] - fb[i]) * (fa[i + q] - fa[i]);
    let mut c0 = EF::zero();
    let mut c2 = EF::zero();
    let mut i: usize = 0;
    while i < quarter
        invariant
            i <= quarter,
            n == a.len(),
            n == b.len(),
            n % 4 == 0,
            half == n / 2,
            quarter == n / 4,
            q == quarter,
            half == 2 * quarter,
            pol_0@.len() == n,
            pol_1@.len() == n,
            fa == folded_high(a, prev_folding_factor),
            fb == folded_high(b, prev_folding_factor),
            f0 == (|i: int| fb[i] * fa[i]),
            f2 == (|i: int| (fb[i + q] - fb[i]) * (fa[i + q] - fa[i])),
            forall|m: int| 0 <= m < i ==> #[trigger] pol_0@[m] == fa[m],
            forall|m: int| q <= m < q + i ==> #[trigger] pol_0@[m] == fa[m],
            forall|m: int| i <= m < q ==> #[trigger] pol_0@[m] == a[m],
            forall|m: int| q + i <= m < n ==> #[trigger] pol_0@[m] == a[m],
            forall|m: int| 0 <= m < i ==> #[trigger] pol_1@[m] == fb[m],
            forall|m: int| q <= m < q + i ==> #[trigger] pol_1@[m] == fb[m],
            forall|m: int| i <= m < q ==> #[trigger] pol_1@[m] == b[m],
            forall|m: int| q + i <= m < n ==> #[trigger] pol_1@[m] == b[m],
            compute_poly ==> c0 == sums::sum(i as nat, f0) && c2 == sums::sum(i as nat, f2),
            !compute_poly ==> c0 == EF::zero_spec() && c2 == EF::zero_spec(),
        decreases quarter - i,
    {
        let x_ll = pol_0[i];
        let x_lr = pol_0[quarter + i];
        let x_0 = x_ll.add(prev_folding_factor.mul(pol_0[half + i].sub(x_ll)));
        let x_1 = x_lr.add(prev_folding_factor.mul(pol_0[half + quarter + i].sub(x_lr)));
        let y_ll = pol_1[i];
        let y_lr = pol_1[quarter + i];
        let y_0 = y_ll.add(prev_folding_factor.mul(pol_1[half + i].sub(y_ll)));
        let y_1 = y_lr.add(prev_folding_factor.mul(pol_1[half + quarter + i].sub(y_lr)));
        proof {
            assert(x_0 == fa[i as int]);
            assert(x_1 == fa[i + q]);
            assert(y_0 == fb[i as int]);
            assert(y_1 == fb[i + q]);
        }
        pol_0.set(i, x_0);
        pol_0.set(quarter + i, x_1);
        pol_1.set(i, y_0);
        pol_1.set(quarter + i, y_1);
        if compute_poly {
            let (local_c0, local_c2) = sumcheck_quadratic(x_0, x_1, y_0, y_1);
            c0 = c0.add(local_c0);
            c2 = c2.add(local_c2);
        }
        i = i + 1;
    }
    pol_0.truncate(half);
    pol_1.truncate(half);
    assert(pol_0@ =~= fa);
    assert(pol_1@ =~= fb);
    (c0, c2)
}

/// Sets the highest variable of both polynomials in place and gives the polynomial of the next round.
pub fn fold_and_compute_product_sumcheck_polynomial_extension_packed_in_place(
    pol_0: &mut Vec<EF>,
    pol_1: &mut Vec<EF>,
    prev_folding_factor: EF,
    sum: EF,
) -> (r: DensePolynomial)
    requires
        old(pol_0)@.len() == old(pol_1)@.len(),
        arith::is_power(old(pol_0)@.len()),
        old(pol_0)@.len() % 4 == 0,
    ensures
        final(pol_0)@ == folded_high(old(pol_0)@, prev_folding_factor),
        final(pol_1)@ == folded_high(old(pol_1)@, prev_folding_factor),
        r.coeffs@ == round_coefficients(final(pol_0)@, final(pol_1)@, sum),
{
    let (c0, c2) = fold_product_extension_packed_in_place_core(pol_0, pol_1, prev_folding_factor, true);
    round_polynomial(c0, c2, sum)
}

/// Sets the highest variable of both polynomials in place.
pub fn fold_product_extension_packed_in_place(pol_0: &mut Vec<EF>, pol_1: &mut Vec<EF>, prev_folding_factor: EF)
    requires
        old(pol_0)@.len() == old(pol_1)@.len(),
        arith::is_power(old(pol_0)@.len()),
        old(pol_0)@.len() % 4 == 0,
    ensures
        final(pol_0)@ == folded_high(old(pol_0)@, prev_folding_factor),
        final(pol_1)@ == folded_high(old(pol_1)@, prev_folding_factor),
{
    let _ = fold_product_extension_packed_in_place_core(pol_0, pol_1, prev_folding_factor, false);
}

/// Half of a power of two above one is a power of two.
proof fn lemma_half_power(n: nat)
    requires
        arith::is_power(n),
        n >= 2,
    ensures
        arith::is_power((n / 2) as nat),
        n % 2 == 0,
{
    let k = choose|k: nat| #[trigger] pow2(k) == n;
    lemma2_to64();
    if k > 0 {
        lemma_pow2_unfold(k);
        assert(pow2((k - 1) as nat) == n / 2);
    }
}

/// What a run of the sumcheck sends and leaves.
#[derive(Debug)]
pub struct ProductSumcheckRun {
    /// The polynomials of the rounds.
    pub polys: Vec<DensePolynomial>,
    /// The sum that is left.
    pub sum: EF,
    /// What is left of the values.
    pub evals: Vec<EF>,
    /// What is left of the weights.
    pub weights: Vec<EF>,
}

/// The claimed sum before round `i`.
pub open spec fn sum_before(polys: Seq<DensePolynomial>, challenges: Seq<EF>, sum: EF, i: int) -> EF {
    if i == 0 {
        sum
    } else {
        poly::poly_at(polys[i - 1].coeffs@, challenges[i - 1])
    }
}

/// Whether the first `n` polynomials are those of their rounds.
pub open spec fn rounds_are(
    p0: Seq<EF>,
    p1: Seq<EF>,
    sum: EF,
    polys: Seq<DensePolynomial>,
    challenges: Seq<EF>,
    n: int,
) -> bool {
    forall|i: int|
        0 <= i < n ==> (#[trigger] polys[i]).coeffs@ == round_coefficients(
            folded_high_by(p0, challenges.subrange(0, i)),
            folded_high_by(p1, challenges.subrange(0, i)),
            sum_before(polys, challenges, sum, i),
        )
}

/// The number of values that are left.
proof fn lemma_folded_len(p: Seq<EF>, challenges: Seq<EF>, vars: nat)
    requires
        p.len() == pow2(vars),
        challenges.len() <= vars,
    ensures
        folded_high_by(p, challenges).len() == pow2((vars - challenges.len()) as nat),
    decreases challenges.len(),
{
    if challenges.len() > 0 {
        lemma_folded_len(p, challenges.drop_last(), vars);
        lemma_pow2_unfold((vars - challenges.len() + 1) as nat);
    }
}

/// One more challenge.
proof fn lemma_folded_next(p: Seq<EF>, challenges: Seq<EF>, i: int)
    requires
        0 <= i < challenges.len(),
    ensures
        folded_high_by(p, challenges.subrange(0, i + 1)) == folded_high(
            folded_high_by(p, challenges.subrange(0, i)),
            challenges[i],
        ),
{
    let c = challenges.subrange(0, i + 1);
    assert(c.drop_last() =~= challenges.subrange(0, i));
    assert(c.last() == challenges[i]);
}

/// Runs the sumcheck with the challenges that answer its polynomials, one for each round.
pub fn run_product_sumcheck<T: Element>(
    pol_a: &Vec<T>,
    pol_b: &Vec<EF>,
    sum: EF,
    challenges: &Vec<EF>,
) -> (r: ProductSumcheckRun)
    requires
        pol_a@.len() == pol_b@.len(),
        arith::is_power(pol_a@.len()),
        challenges@.len() >= 1,
        pow2(challenges@.len()) <= pol_a@.len(),
    ensures
        r.polys@.len() == challenges@.len(),
        rounds_are(elements(pol_a@), pol_b@, sum, r.polys@, challenges@, challenges@.len() as int),
        r.sum == sum_before(r.polys@, challenges@, sum, challenges@.len() as int),
        r.evals@ == folded_high_by(elements(pol_a@), challenges@),
        r.weights@ == folded_high_by(pol_b@, challenges@),
{
    let ghost a = elements(pol_a@);
    let ghost b = pol_b@;
    let ghost vars = choose|k: nat| #[trigger] pow2(k) == a.len();
    let ghost ch = challenges@;
    let n_rounds: usize = challenges.len();
    proof {
        if vars < n_rounds {
            lemma_pow2_strictly_increases(vars, n_rounds as nat);
        }
        assert(ch.subrange(0, 0) =~= Seq::<EF>::empty());
        assert(elements(pol_b@) =~= pol_b@);
    }
    let mut polys: Vec<DensePolynomial> = Vec::new();
    let first = compute_product_sumcheck_polynomial(pol_a, pol_b, sum);
    let r1 = challenges[0];
    let mut left = first.evaluate(r1);
    polys.push(first);
    proof {
        lemma_folded_next(a, ch, 0);
        lemma_folded_next(b, ch, 0);
    }
    if n_rounds == 1 {
        let evals = fold_high(pol_a, r1);
        let weights = fold_high(pol_b, r1);
        assert(ch.subrange(0, 1) =~= ch);
        return ProductSumcheckRun { polys, sum: left, evals, weights };
    }
    proof {
        lemma_pow2_unfold(vars);
        lemma_pow2_unfold((vars - 1) as nat);
    }
    let (second, mut evals, mut weights) = fold_and_compute_product_sumcheck_polynomial(pol_a, pol_b, r1, left);
    let ghost before = polys@;
    left = second.evaluate(challenges[1]);
    polys.push(second);
    proof {
        assert(sum_before(polys@, ch, sum, 1) == sum_before(before, ch, sum, 1));
    }
    let mut i: usize = 2;
    while i < n_rounds
        invariant
            2 <= i <= n_rounds,
            n_rounds == challenges@.len(),
            ch == challenges@,
            a.len() == b.len(),
            a.len() == pow2(vars),
            n_rounds <= vars,
            polys@.len() == i,
            rounds_are(a, b, sum, polys@, ch, i as int),
            left == sum_before(polys@, ch, sum, i as int),
            evals@ == folded_high_by(a, ch.subrange(0, i - 1)),
            weights@ == folded_high_by(b, ch.subrange(0, i - 1)),
        decreases n_rounds - i,
    {
        proof {
            lemma_folded_len(a, ch.subrange(0, i - 1), vars);
            lemma_folded_len(b, ch.subrange(0, i - 1), vars);
            lemma_pow2_unfold((vars - i + 1) as nat);
            lemma_pow2_unfold((vars - i) as nat);
            lemma_folded_next(a, ch, i - 1);
            lemma_folded_next(b, ch, i - 1);
        }
        let ghost before = polys@;
        let polynomial = fold_and_compute_product_sumcheck_polynomial_extension_packed_in_place(
            &mut evals,
            &mut weights,
            challenges[i - 1],
            left,
        );
        left = polynomial.evaluate(challenges[i]);
        polys.push(polynomial);
        proof {
            assert forall|m: int| 0 <= m < i + 1 implies (#[trigger] polys@[m]).coeffs@ == round_coefficients(
                folded_high_by(a, ch.subrange(0, m)),
                folded_high_by(b, ch.subrange(0, m)),
                sum_before(polys@, ch, sum, m),
            ) by {
                assert(sum_before(polys@, ch, sum, m) == sum_before(before, ch, sum, m));
                if m < i {
                    assert(polys@[m] == before[m]);
                }
            }
        }
        i = i + 1;
    }
    let last = challenges[n_rounds - 1];
    let final_evals = fold_high(&evals, last);
    let final_weights = fold_high(&weights, last);
    proof {
        assert(elements(evals@) =~= evals@);
        assert(elements(weights@) =~= weights@);
        lemma_folded_next(a, ch, n_rounds - 1);
        lemma_folded_next(b, ch, n_rounds - 1);
        assert(ch.subrange(0, n_rounds as int) =~= ch);
    }
    ProductSumcheckRun { polys, sum: left, evals: final_evals, weights: final_weights }
}

/// Where the claimed sum is the sum of the products, so is the sum that a run leaves of what it
/// leaves.
pub proof fn law_true_sum_stays_true(
    p0: Seq<EF>,
    p1: Seq<EF>,
    polys: Seq<DensePolynomial>,
    challenges: Seq<EF>,
    vars: nat,
    n: int,
)
    requires
        p0.len() == pow2(vars),
        p1.len() == pow2(vars),
        0 <= n <= challenges.len() <= vars,
        forall|i: int| 0 <= i < p0.len() ==> (#[trigger] p0[i]).canonical(),
        forall|i: int| 0 <= i < p1.len() ==> (#[trigger] p1[i]).canonical(),
        rounds_are(p0, p1, inner_product(p0, p1), polys, challenges, n),
    ensures
        sum_before(polys, challenges, inner_product(p0, p1), n) == inner_product(
            folded_high_by(p0, challenges.subrange(0, n)),
            folded_high_by(p1, challenges.subrange(0, n)),
        ),
    decreases n,
{
    let total = inner_product(p0, p1);
    if n == 0 {
        assert(challenges.subrange(0, 0) =~= Seq::<EF>::empty());
    } else {
        let m: int = n - 1;
        law_true_sum_stays_true(p0, p1, polys, challenges, vars, m);
        let c = challenges.subrange(0, m);
        let a = folded_high_by(p0, c);
        let b = folded_high_by(p1, c);
        let r = challenges[m];
        lemma_folded_len(p0, c, vars);
        lemma_folded_len(p1, c, vars);
        lemma_folded_canonical(p0, c);
        lemma_folded_canonical(p1, c);
        lemma_pow2_unfold((vars - m) as nat);
        assert(polys[m].coeffs@ == round_coefficients(a, b, sum_before(polys, challenges, total, m)));
        law_round_of_true_sum(a, b, r);
        lemma_folded_next(p0, challenges, m);
        lemma_folded_next(p1, challenges, m);
        let h: int = a.len() as int / 2;
        sums::lemma_sum_ext(
            h as nat,
            |i: int| rounds::line(a[i], a[i + h], r) * rounds::line(b[i], b[i + h], r),
            |i: int| folded_high(a, r)[i] * folded_high(b, r)[i],
        );
    }
}

proof fn lemma_folded_canonical(p: Seq<EF>, challenges: Seq<EF>)
    requires
        forall|i: int| 0 <= i < p.len() ==> (#[trigger] p[i]).canonical(),
    ensures
        forall|i: int|
            0 <= i < folded_high_by(p, challenges).len() ==> (#[trigger] folded_high_by(p, challenges)[i]).canonical(),
    decreases challenges.len(),
{
    if challenges.len() > 0 {
        let q = folded_high_by(p, challenges.drop_last());
        let r = challenges.last();
        assert forall|i: int| 0 <= i < folded_high(q, r).len() implies (#[trigger] folded_high(q, r)[i]).canonical() by {
            ext::lemma_add_canonical(q[i], r * (q[i + q.len() as int / 2] - q[i]));
        }
    }
}

/// The value of a line through two polynomials is the line through their values.
proof fn lemma_mle_line(f: spec_fn(int) -> EF, g: spec_fn(int) -> EF, r: EF, point: Seq<EF>)
    ensures
        mle::mle_at(|i: int| rounds::line(f(i), g(i), r), point) == rounds::line(
            mle::mle_at(f, point),
            mle::mle_at(g, point),
            r,
        ),
{
    let n: nat = pow2(point.len());
    let w = |i: int| mle::eq_weight(point, i);
    let v = |i: int| rounds::line(f(i), g(i), r);
    let fw = |i: int| f(i) * mle::eq_weight(point, i);
    let gw = |i: int| g(i) * mle::eq_weight(point, i);
    let d = |i: int| gw(i) - fw(i);
    let rd = |i: int| r * d(i);
    let vw = |i: int| v(i) * mle::eq_weight(point, i);
    assert forall|i: int| 0 <= i < n implies #[trigger] vw(i) == fw(i) + rd(i) by {
        ext::lemma_mul_distrib_left(f(i), r * (g(i) - f(i)), w(i));
        ext::lemma_mul_assoc(r, g(i) - f(i), w(i));
        ext::lemma_mul_distrib_sub_left(g(i), f(i), w(i));
    }
    sums::lemma_sum_ext(n, vw, |i: int| fw(i) + rd(i));
    sums::lemma_sum_add(n, fw, rd);
    sums::lemma_sum_mul_left(r, n, d);
    sums::lemma_sum_sub(n, gw, fw);
}

/// Folding the highest variables one after the other evaluates the polynomial in them: what is left at `j`
/// is the value, at the challenges, of the polynomial with the values `j`, `j + rest`, `j + 2 rest` and so
/// on, where `rest` values are left.
pub proof fn law_folding_high_evaluates(p: Seq<EF>, challenges: Seq<EF>, vars: nat, j: int)
    requires
        p.len() == pow2(vars),
        challenges.len() <= vars,
        forall|i: int| 0 <= i < p.len() ==> (#[trigger] p[i]).canonical(),
        forall|i: int| 0 <= i < challenges.len() ==> (#[trigger] challenges[i]).canonical(),
        0 <= j < pow2((vars - challenges.len()) as nat),
    ensures
        folded_high_by(p, challenges).len() == pow2((vars - challenges.len()) as nat),
        folded_high_by(p, challenges)[j] == mle::mle_at(
            spaced(p, pow2((vars - challenges.len()) as nat) as int, j),
            challenges,
        ),
    decreases challenges.len(),
{
    let h: int = pow2((vars - challenges.len()) as nat) as int;
    lemma_folded_len(p, challenges, vars);
    if challenges.len() == 0 {
        lemma2_to64();
        let v = spaced(p, h, j);
        assert(v(0) == p[j]) by {
            assert(0 * h + j == j);
        }
        assert(p[j].canonical());
        let f = |i: int| v(i) * mle::eq_weight(challenges, i);
        ext::lemma_mul_one(p[j]);
        assert(sums::sum(0, f) == EF::zero_spec());
        ext::lemma_add_zero(p[j]);
        ext::lemma_add_comm(EF::zero_spec(), p[j]);
        assert(sums::sum(1, f) == p[j]);
    } else {
        let front = challenges.drop_last();
        let r = challenges.last();
        lemma_pow2_unfold((vars - front.len()) as nat);
        lemma_folded_len(p, front, vars);
        let q = folded_high_by(p, front);
        assert(q.len() == 2 * h);
        law_folding_high_evaluates(p, front, vars, j);
        law_folding_high_evaluates(p, front, vars, j + h);
        let v = spaced(p, h, j);
        assert(challenges[challenges.len() - 1].canonical());
        assert forall|i: int| (#[trigger] v(i)).canonical() by {
            ext::lemma_constants_canonical();
            if 0 <= i * h + j < p.len() {
                assert(p[i * h + j].canonical());
            }
        }
        mle::lemma_mle_fold(v, challenges);
        let (low, high) = (spaced(p, 2 * h, j), spaced(p, 2 * h, j + h));
        let folded = mle::folded(v, r);
        let lines = |i: int| rounds::line(low(i), high(i), r);
        assert forall|i: int| 0 <= i < pow2(front.len()) implies #[trigger] folded(i) == lines(i) by {
            assert((2 * i) * h + j == i * (2 * h) + j) by (nonlinear_arith);
            assert((2 * i + 1) * h + j == i * (2 * h) + (j + h)) by (nonlinear_arith);
        }
        lemma_mle_same(folded, lines, front);
        lemma_mle_line(low, high, r, front);
    }
}

/// The values at `j`, `j + step`, `j + 2 step` and so on; zero behind the last.
pub open spec fn spaced(p: Seq<EF>, step: int, j: int) -> spec_fn(int) -> EF {
    |i: int|
        if 0 <= i * step + j < p.len() {
            p[i * step + j]
        } else {
            EF::zero_spec()
        }
}

proof fn lemma_mle_same(f: spec_fn(int) -> EF, g: spec_fn(int) -> EF, point: Seq<EF>)
    requires
        forall|i: int| 0 <= i < pow2(point.len()) ==> #[trigger] f(i) == g(i),
    ensures
        mle::mle_at(f, point) == mle::mle_at(g, point),
{
    let n: nat = pow2(point.len());
    let a = |i: int| f(i) * mle::eq_weight(point, i);
    let b = |i: int| g(i) * mle::eq_weight(point, i);
    assert forall|i: int| 0 <= i < n implies #[trigger] a(i) == b(i) by {
        assert(f(i) == g(i));
    }
    sums::lemma_sum_ext(n, a, b);
}

} // verus!
