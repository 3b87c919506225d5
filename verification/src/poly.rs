//! Polynomials in one variable over the extension field.
use crate::algebra::Ring;
use crate::ext;
use crate::ext::EF;
use crate::field;
use crate::field::{F, MODULUS};
use crate::frobenius;
use crate::sums;
use crate::units;
use vstd::arithmetic::div_mod::*;
use vstd::prelude::*;

verus! {

/// The value at `x` of the polynomial with the coefficients `c`, lowest first.
pub open spec fn poly_at(c: Seq<EF>, x: EF) -> EF
    decreases c.len(),
{
    if c.len() == 0 {
        EF::zero_spec()
    } else {
        c[0] + x * poly_at(c.drop_first(), x)
    }
}

/// The coefficient of `X^i`.
pub open spec fn coefficient(c: Seq<EF>, i: int) -> EF {
    if i < c.len() {
        c[i]
    } else {
        EF::zero_spec()
    }
}

/// The coefficients above the lowest.
pub open spec fn tail(c: Seq<EF>) -> Seq<EF> {
    if c.len() == 0 {
        c
    } else {
        c.drop_first()
    }
}

/// The greater of two numbers.
pub open spec fn larger(a: nat, b: nat) -> nat {
    if a < b {
        b
    } else {
        a
    }
}

pub open spec fn poly_add(a: Seq<EF>, b: Seq<EF>) -> Seq<EF> {
    Seq::new(larger(a.len(), b.len()), |i: int| coefficient(a, i) + coefficient(b, i))
}

pub open spec fn poly_sub(a: Seq<EF>, b: Seq<EF>) -> Seq<EF> {
    Seq::new(larger(a.len(), b.len()), |i: int| coefficient(a, i) - coefficient(b, i))
}

/// The product with a constant.
pub open spec fn poly_times(k: EF, a: Seq<EF>) -> Seq<EF> {
    Seq::new(a.len(), |i: int| k * a[i])
}

/// The product with the variable.
pub open spec fn poly_shift(a: Seq<EF>) -> Seq<EF> {
    Seq::new(a.len() + 1, |i: int| if i == 0 { EF::zero_spec() } else { a[i - 1] })
}

pub open spec fn poly_mul(a: Seq<EF>, b: Seq<EF>) -> Seq<EF>
    decreases a.len(),
{
    if a.len() == 0 {
        Seq::empty()
    } else {
        poly_add(poly_times(a[0], b), poly_shift(poly_mul(a.drop_first(), b)))
    }
}

/// The sum with a constant of the base field.
pub open spec fn poly_plus_base(a: Seq<EF>, k: F) -> Seq<EF> {
    if a.len() == 0 {
        seq![EF::zero_spec() + EF::from_base_spec(k)]
    } else {
        a.update(0, a[0] + EF::from_base_spec(k))
    }
}

/// The product with a constant of the base field.
pub open spec fn poly_times_base(a: Seq<EF>, k: F) -> Seq<EF> {
    Seq::new(a.len(), |i: int| a[i].scale_spec(k))
}

impl Ring for Seq<EF> {
    open spec fn nought() -> Seq<EF> {
        Seq::empty()
    }

    open spec fn plus_spec(self, b: Seq<EF>) -> Seq<EF> {
        poly_add(self, b)
    }

    open spec fn minus_spec(self, b: Seq<EF>) -> Seq<EF> {
        poly_sub(self, b)
    }

    open spec fn times_spec(self, b: Seq<EF>) -> Seq<EF> {
        poly_mul(self, b)
    }

    open spec fn plus_base_spec(self, k: F) -> Seq<EF> {
        poly_plus_base(self, k)
    }

    open spec fn times_base_spec(self, k: F) -> Seq<EF> {
        poly_times_base(self, k)
    }
}

pub proof fn lemma_at_canonical(c: Seq<EF>, x: EF)
    ensures
        poly_at(c, x).canonical(),
{
    ext::lemma_constants_canonical();
    if c.len() > 0 {
        ext::lemma_add_canonical(c[0], x * poly_at(c.drop_first(), x));
    }
}

/// The value from the lowest coefficient and the value of the rest.
pub proof fn lemma_at_tail(c: Seq<EF>, x: EF)
    ensures
        poly_at(c, x) == coefficient(c, 0) + x * poly_at(tail(c), x),
{
    if c.len() == 0 {
        ext::lemma_mul_zero(x);
        ext::lemma_constants_canonical();
        ext::lemma_add_zero(EF::zero_spec());
    }
}

pub proof fn lemma_at_add(a: Seq<EF>, b: Seq<EF>, x: EF)
    ensures
        poly_at(poly_add(a, b), x) == poly_at(a, x) + poly_at(b, x),
    decreases a.len() + b.len(),
{
    if a.len() + b.len() == 0 {
        ext::lemma_constants_canonical();
        ext::lemma_add_zero(EF::zero_spec());
    } else {
        let s = poly_add(a, b);
        let ta = poly_at(tail(a), x);
        let tb = poly_at(tail(b), x);
        assert(s.drop_first() =~= poly_add(tail(a), tail(b)));
        lemma_at_add(tail(a), tail(b), x);
        lemma_at_tail(a, x);
        lemma_at_tail(b, x);
        ext::lemma_mul_distrib_right(x, ta, tb);
        ext::lemma_add_exchange(coefficient(a, 0), coefficient(b, 0), x * ta, x * tb);
    }
}

pub proof fn lemma_at_sub(a: Seq<EF>, b: Seq<EF>, x: EF)
    ensures
        poly_at(poly_sub(a, b), x) == poly_at(a, x) - poly_at(b, x),
    decreases a.len() + b.len(),
{
    if a.len() + b.len() == 0 {
        ext::lemma_sub_self(EF::zero_spec());
    } else {
        let s = poly_sub(a, b);
        let ta = poly_at(tail(a), x);
        let tb = poly_at(tail(b), x);
        assert(s.drop_first() =~= poly_sub(tail(a), tail(b)));
        lemma_at_sub(tail(a), tail(b), x);
        lemma_at_tail(a, x);
        lemma_at_tail(b, x);
        ext::lemma_mul_distrib_sub_right(x, ta, tb);
        ext::lemma_sub_exchange(coefficient(a, 0), x * ta, coefficient(b, 0), x * tb);
    }
}

pub proof fn lemma_at_times(k: EF, a: Seq<EF>, x: EF)
    ensures
        poly_at(poly_times(k, a), x) == k * poly_at(a, x),
    decreases a.len(),
{
    if a.len() == 0 {
        ext::lemma_mul_zero(k);
    } else {
        let t = poly_at(a.drop_first(), x);
        assert(poly_times(k, a).drop_first() =~= poly_times(k, a.drop_first()));
        lemma_at_times(k, a.drop_first(), x);
        ext::lemma_mul_distrib_right(k, a[0], x * t);
        ext::lemma_mul_assoc(k, x, t);
        ext::lemma_mul_comm(k, x);
        ext::lemma_mul_assoc(x, k, t);
    }
}

pub proof fn lemma_at_shift(a: Seq<EF>, x: EF)
    ensures
        poly_at(poly_shift(a), x) == x * poly_at(a, x),
{
    assert(poly_shift(a).drop_first() =~= a);
    ext::lemma_mul_canonical(x, poly_at(a, x));
    ext::lemma_add_zero(x * poly_at(a, x));
    ext::lemma_add_comm(EF::zero_spec(), x * poly_at(a, x));
}

pub proof fn lemma_at_mul(a: Seq<EF>, b: Seq<EF>, x: EF)
    ensures
        poly_at(poly_mul(a, b), x) == poly_at(a, x) * poly_at(b, x),
    decreases a.len(),
{
    let v = poly_at(b, x);
    if a.len() == 0 {
        ext::lemma_mul_zero(v);
    } else {
        let rest = a.drop_first();
        let t = poly_at(rest, x);
        lemma_at_mul(rest, b, x);
        lemma_at_add(poly_times(a[0], b), poly_shift(poly_mul(rest, b)), x);
        lemma_at_times(a[0], b, x);
        lemma_at_shift(poly_mul(rest, b), x);
        ext::lemma_mul_distrib_left(a[0], x * t, v);
        ext::lemma_mul_assoc(x, t, v);
    }
}

pub proof fn lemma_at_plus_base(a: Seq<EF>, k: F, x: EF)
    ensures
        poly_at(poly_plus_base(a, k), x) == poly_at(a, x) + EF::from_base_spec(k),
{
    let z = EF::zero_spec();
    let c = EF::from_base_spec(k);
    let s = poly_plus_base(a, k);
    if a.len() == 0 {
        assert(s.drop_first() =~= Seq::<EF>::empty());
        assert(poly_at(Seq::<EF>::empty(), x) == z);
        ext::lemma_mul_zero(x);
        ext::lemma_add_canonical(z, c);
        ext::lemma_add_zero(z + c);
    } else {
        let t = x * poly_at(a.drop_first(), x);
        assert(s.drop_first() =~= a.drop_first());
        ext::lemma_add_assoc(a[0], c, t);
        ext::lemma_add_comm(c, t);
        ext::lemma_add_assoc(a[0], t, c);
    }
}

pub proof fn lemma_at_times_base(a: Seq<EF>, k: F, x: EF)
    ensures
        poly_at(poly_times_base(a, k), x) == poly_at(a, x).scale_spec(k),
    decreases a.len(),
{
    if a.len() == 0 {
        ext::lemma_scale_zero(EF::zero_spec());
    } else {
        let t = poly_at(a.drop_first(), x);
        assert(poly_times_base(a, k).drop_first() =~= poly_times_base(a.drop_first(), k));
        lemma_at_times_base(a.drop_first(), k, x);
        ext::lemma_scale_add(a[0], x * t, k);
        ext::lemma_mul_scale_right(x, t, k);
    }
}

/// The polynomials of `f`, added.
pub open spec fn poly_sum(n: nat, f: spec_fn(int) -> Seq<EF>) -> Seq<EF>
    decreases n,
{
    if n == 0 {
        Seq::empty()
    } else {
        poly_add(poly_sum((n - 1) as nat, f), f(n - 1))
    }
}

pub proof fn lemma_poly_sum(n: nat, f: spec_fn(int) -> Seq<EF>, len: nat, x: EF)
    requires
        forall|i: int| 0 <= i < n ==> (#[trigger] f(i)).len() <= len,
    ensures
        poly_sum(n, f).len() <= len,
        poly_at(poly_sum(n, f), x) == sums::sum(n, |i: int| poly_at(f(i), x)),
    decreases n,
{
    if n > 0 {
        lemma_poly_sum((n - 1) as nat, f, len, x);
        assert(f(n - 1).len() <= len);
        lemma_at_add(poly_sum((n - 1) as nat, f), f(n - 1), x);
    }
}

/// The length of a product.
pub proof fn lemma_mul_len(a: Seq<EF>, b: Seq<EF>)
    requires
        b.len() > 0,
    ensures
        a.len() == 0 ==> poly_mul(a, b).len() == 0,
        a.len() > 0 ==> poly_mul(a, b).len() == a.len() + b.len() - 1,
    decreases a.len(),
{
    if a.len() > 0 {
        lemma_mul_len(a.drop_first(), b);
    }
}

/// The point `i` of the base field.
pub open spec fn node(i: int) -> EF {
    EF::from_base_spec(F::of(i))
}

/// The polynomial that is left when `X - a` is divided out.
spec fn quotient(c: Seq<EF>, a: EF) -> Seq<EF>
    decreases c.len(),
{
    if c.len() <= 1 {
        Seq::empty()
    } else {
        seq![poly_at(c.drop_first(), a)] + quotient(c.drop_first(), a)
    }
}

/// `c(x) == c(a) + (x - a) q(x)`.
proof fn lemma_divide(c: Seq<EF>, a: EF, x: EF)
    ensures
        c.len() > 0 ==> quotient(c, a).len() == c.len() - 1,
        poly_at(c, x) == poly_at(c, a) + (x - a) * poly_at(quotient(c, a), x),
    decreases c.len(),
{
    let z = EF::zero_spec();
    ext::lemma_constants_canonical();
    lemma_at_canonical(c, a);
    lemma_at_canonical(c, x);
    if c.len() <= 1 {
        ext::lemma_mul_zero(x - a);
        ext::lemma_add_zero(poly_at(c, a));
        if c.len() == 1 {
            assert(c.drop_first() =~= Seq::<EF>::empty());
            assert(poly_at(Seq::<EF>::empty(), x) == z);
            assert(poly_at(Seq::<EF>::empty(), a) == z);
            ext::lemma_mul_zero(x);
            ext::lemma_mul_zero(a);
        }
    } else {
        let t = c.drop_first();
        lemma_divide(t, a, x);
        let ta = poly_at(t, a);
        let tx = poly_at(t, x);
        let s = poly_at(quotient(t, a), x);
        let q = quotient(c, a);
        assert(q.drop_first() =~= quotient(t, a));
        let d = x - a;
        // d (ta + x s) == d ta + x (d s)
        ext::lemma_mul_distrib_right(d, ta, x * s);
        ext::lemma_mul_assoc(d, x, s);
        ext::lemma_mul_comm(d, x);
        ext::lemma_mul_assoc(x, d, s);
        // x tx == x ta + x (d s)
        ext::lemma_mul_distrib_right(x, ta, d * s);
        // a ta + d ta == x ta
        ext::lemma_mul_distrib_sub_left(x, a, ta);
        ext::lemma_mul_canonical(x, ta);
        ext::lemma_sub_add_cancel(x * ta, a * ta);
        ext::lemma_add_comm(x * ta - a * ta, a * ta);
        let u = x * (d * s);
        ext::lemma_add_assoc(c[0], a * ta, d * ta + u);
        ext::lemma_add_assoc(a * ta, d * ta, u);
        assert(poly_at(q, x) == ta + x * s);
        assert(a * ta + d * ta == x * ta);
        assert(x * tx == x * ta + u);
    }
}

/// Whether no point of the base field is listed twice.
pub open spec fn distinct(nodes: Seq<F>) -> bool {
    &&& forall|i: int| 0 <= i < nodes.len() ==> (#[trigger] nodes[i]).canonical()
    &&& forall|i: int, j: int| 0 <= i < j < nodes.len() ==> #[trigger] nodes[i] != #[trigger] nodes[j]
}

/// Two different points differ by an element with an inverse.
pub proof fn lemma_difference(a: F, b: F) -> (u: F)
    requires
        a.canonical(),
        b.canonical(),
        a != b,
    ensures
        (a - b) * u == F::one_spec(),
        a - b != F::zero_spec(),
        (a - b).canonical(),
{
    let d = a - b;
    field::lemma_of_val(a.val() - b.val());
    field::lemma_sub_zero_iff(a, b);
    units::lemma_inverse_exists(d)
}

/// The points `0, 1, ..., n - 1`.
pub open spec fn consecutive(n: nat) -> Seq<F> {
    Seq::new(n, |i: int| F::of(i))
}

pub proof fn lemma_consecutive_distinct(n: nat)
    requires
        n <= MODULUS,
    ensures
        distinct(consecutive(n)),
{
    let nodes = consecutive(n);
    assert forall|i: int| 0 <= i < nodes.len() implies (#[trigger] nodes[i]).canonical() by {
        field::lemma_of_val(i);
    }
    assert forall|i: int, j: int| 0 <= i < j < nodes.len() implies #[trigger] nodes[i] != #[trigger] nodes[j] by {
        field::lemma_of_val(i);
        field::lemma_of_val(j);
        lemma_small_mod(i as nat, MODULUS as nat);
        lemma_small_mod(j as nat, MODULUS as nat);
    }
}

/// Whether no point is listed twice.
pub open spec fn apart(points: Seq<EF>) -> bool {
    &&& forall|i: int| 0 <= i < points.len() ==> (#[trigger] points[i]).canonical()
    &&& forall|i: int, j: int| 0 <= i < j < points.len() ==> #[trigger] points[i] != #[trigger] points[j]
}

/// What an element but zero takes to zero is zero.
pub proof fn lemma_unit_cancel(d: EF, v: EF)
    requires
        d.canonical(),
        d != EF::zero_spec(),
        v.canonical(),
        d * v == EF::zero_spec(),
    ensures
        v == EF::zero_spec(),
{
    frobenius::law_nonzero_has_inverse(d);
    let u = choose|u: EF| u.canonical() && #[trigger] (d * u) == EF::one_spec();
    ext::lemma_mul_comm(d, u);
    ext::lemma_mul_assoc(u, d, v);
    ext::lemma_mul_one(v);
    ext::lemma_mul_zero(u);
}

/// A polynomial with no more coefficients than it has zeros among `points` is zero everywhere.
proof fn lemma_vanishing(c: Seq<EF>, points: Seq<EF>, x: EF)
    requires
        c.len() <= points.len(),
        apart(points),
        forall|i: int| 0 <= i < points.len() ==> poly_at(c, #[trigger] points[i]) == EF::zero_spec(),
    ensures
        poly_at(c, x) == EF::zero_spec(),
    decreases c.len(),
{
    let z = EF::zero_spec();
    ext::lemma_constants_canonical();
    if c.len() > 0 {
        let first = points[0];
        let rest = points.drop_first();
        let q = quotient(c, first);
        lemma_divide(c, first, x);
        assert(apart(rest)) by {
            assert forall|i: int| 0 <= i < rest.len() implies (#[trigger] rest[i]).canonical() by {
                assert(points[i + 1].canonical());
            }
            assert forall|i: int, j: int| 0 <= i < j < rest.len() implies #[trigger] rest[i]
                != #[trigger] rest[j] by {
                assert(points[i + 1] != points[j + 1]);
            }
        }
        assert forall|i: int| 0 <= i < rest.len() implies poly_at(q, #[trigger] rest[i]) == z by {
            let y = points[i + 1];
            assert(points[0] != points[i + 1]);
            assert(points[0].canonical() && points[i + 1].canonical());
            ext::lemma_sub_zero_iff(first, y);
            ext::lemma_add_canonical(first, y);
            assert(poly_at(c, points[i + 1]) == z);
            lemma_divide(c, first, y);
            let v = poly_at(q, y);
            lemma_at_canonical(q, y);
            ext::lemma_mul_canonical(y - first, v);
            ext::lemma_add_zero((y - first) * v);
            ext::lemma_add_comm(z, (y - first) * v);
            // (first - y) v == -((y - first) v) == 0
            ext::lemma_mul_distrib_sub_left(first, y, v);
            ext::lemma_mul_distrib_sub_left(y, first, v);
            ext::lemma_mul_canonical(y, v);
            ext::lemma_mul_canonical(first, v);
            ext::lemma_sub_zero_iff(y * v, first * v);
            ext::lemma_sub_self(y * v);
            lemma_unit_cancel(first - y, v);
        }
        lemma_vanishing(q, rest, x);
        ext::lemma_mul_zero(x - first);
        ext::lemma_add_zero(z);
    }
}

/// Two polynomials that agree at as many points as they have coefficients agree everywhere.
pub proof fn law_agreement_is_everywhere(a: Seq<EF>, b: Seq<EF>, points: Seq<EF>, x: EF)
    requires
        a.len() <= points.len(),
        b.len() <= points.len(),
        apart(points),
        forall|i: int| 0 <= i < points.len() ==> poly_at(a, #[trigger] points[i]) == poly_at(b, points[i]),
    ensures
        poly_at(a, x) == poly_at(b, x),
{
    let d = poly_sub(a, b);
    assert forall|i: int| 0 <= i < points.len() implies poly_at(d, #[trigger] points[i]) == EF::zero_spec() by {
        lemma_at_sub(a, b, points[i]);
        ext::lemma_sub_self(poly_at(a, points[i]));
    }
    lemma_vanishing(d, points, x);
    lemma_at_sub(a, b, x);
    lemma_at_canonical(a, x);
    lemma_at_canonical(b, x);
    ext::lemma_sub_zero_iff(poly_at(a, x), poly_at(b, x));
}

/// A polynomial with as many zeros as coefficients has no coefficient but zero.
pub proof fn law_zeros_determine(c: Seq<EF>, points: Seq<EF>, i: int)
    requires
        c.len() <= points.len(),
        apart(points),
        forall|i: int| 0 <= i < c.len() ==> (#[trigger] c[i]).canonical(),
        forall|i: int| 0 <= i < points.len() ==> poly_at(c, #[trigger] points[i]) == EF::zero_spec(),
        0 <= i < c.len(),
    ensures
        c[i] == EF::zero_spec(),
    decreases c.len(),
{
    let z = EF::zero_spec();
    let rest = c.drop_first();
    ext::lemma_constants_canonical();
    lemma_vanishing(c, points, z);
    ext::lemma_mul_comm(z, poly_at(rest, z));
    ext::lemma_mul_zero(poly_at(rest, z));
    assert(c[0].canonical());
    ext::lemma_add_zero(c[0]);
    assert(c[0] == z);
    if i > 0 {
        // At every point but zero the rest is zero; leave out zero, or else the first point.
        let hole: int = if points.contains(z) {
            points.index_of(z)
        } else {
            0
        };
        let others = points.remove(hole);
        assert forall|a: int| 0 <= a < others.len() implies exists|b: int|
            0 <= b < points.len() && b != hole && #[trigger] points[b] == #[trigger] others[a] by {
            let b: int = if a < hole {
                a
            } else {
                a + 1
            };
            assert(points[b] == others[a]);
        }
        assert(apart(others)) by {
            assert forall|a: int| 0 <= a < others.len() implies (#[trigger] others[a]).canonical() by {
                let b: int = if a < hole {
                    a
                } else {
                    a + 1
                };
                assert(points[b].canonical());
            }
            assert forall|a: int, b: int| 0 <= a < b < others.len() implies #[trigger] others[a]
                != #[trigger] others[b] by {
                let p: int = if a < hole {
                    a
                } else {
                    a + 1
                };
                let q: int = if b < hole {
                    b
                } else {
                    b + 1
                };
                assert(points[p] != points[q]);
            }
        }
        assert forall|a: int| 0 <= a < others.len() implies poly_at(rest, #[trigger] others[a]) == z by {
            let b = choose|b: int|
                0 <= b < points.len() && b != hole && #[trigger] points[b] == #[trigger] others[a];
            let x = points[b];
            let v = poly_at(rest, x);
            assert(poly_at(c, points[b]) == z);
            assert(points[b].canonical());
            if x == z {
                assert(points.contains(z));
                assert(points[hole] == z);
                if b < hole {
                    assert(points[b] != points[hole]);
                } else {
                    assert(points[hole] != points[b]);
                }
            }
            lemma_at_canonical(rest, x);
            ext::lemma_mul_canonical(x, v);
            ext::lemma_add_comm(z, x * v);
            ext::lemma_add_zero(x * v);
            lemma_unit_cancel(x, v);
        }
        assert forall|j: int| 0 <= j < rest.len() implies (#[trigger] rest[j]).canonical() by {
            assert(c[j + 1].canonical());
        }
        law_zeros_determine(rest, others, i - 1);
        assert(rest[i - 1] == c[i]);
    }
}

/// Points of the base field, in the extension.
pub open spec fn lifted(nodes: Seq<F>) -> Seq<EF> {
    Seq::new(nodes.len(), |i: int| EF::from_base_spec(nodes[i]))
}

/// Different points of the base field are different in the extension.
pub proof fn lemma_distinct_apart(nodes: Seq<F>)
    requires
        distinct(nodes),
    ensures
        apart(lifted(nodes)),
{
    let points = lifted(nodes);
    assert forall|i: int| 0 <= i < points.len() implies (#[trigger] points[i]).canonical() by {
        assert(nodes[i].canonical());
        ext::lemma_from_base_canonical(nodes[i]);
    }
    assert forall|i: int, j: int| 0 <= i < j < points.len() implies #[trigger] points[i] != #[trigger] points[j] by {
        assert(nodes[i] != nodes[j]);
    }
}

/// Two polynomials that agree at as many points of the base field as they have coefficients agree
/// everywhere.
pub proof fn law_interpolation_is_unique(a: Seq<EF>, b: Seq<EF>, nodes: Seq<F>, x: EF)
    requires
        a.len() <= nodes.len(),
        b.len() <= nodes.len(),
        distinct(nodes),
        forall|i: int|
            0 <= i < nodes.len() ==> poly_at(a, EF::from_base_spec(#[trigger] nodes[i])) == poly_at(
                b,
                EF::from_base_spec(nodes[i]),
            ),
    ensures
        poly_at(a, x) == poly_at(b, x),
{
    let points = lifted(nodes);
    lemma_distinct_apart(nodes);
    assert forall|i: int| 0 <= i < points.len() implies poly_at(a, #[trigger] points[i]) == poly_at(
        b,
        points[i],
    ) by {
        assert(poly_at(a, EF::from_base_spec(nodes[i])) == poly_at(b, EF::from_base_spec(nodes[i])));
    }
    law_agreement_is_everywhere(a, b, points, x);
}

/// Two polynomials with at most `n` coefficients that agree at the points below `n` agree everywhere.
pub proof fn lemma_consecutive_unique(a: Seq<EF>, b: Seq<EF>, n: nat, x: EF)
    requires
        a.len() <= n,
        b.len() <= n,
        n <= MODULUS,
        forall|i: int| 0 <= i < n ==> poly_at(a, #[trigger] node(i)) == poly_at(b, node(i)),
    ensures
        poly_at(a, x) == poly_at(b, x),
{
    let nodes = consecutive(n);
    lemma_consecutive_distinct(n);
    assert forall|i: int| 0 <= i < nodes.len() implies poly_at(a, EF::from_base_spec(#[trigger] nodes[i]))
        == poly_at(b, EF::from_base_spec(nodes[i])) by {
        assert(poly_at(a, node(i)) == poly_at(b, node(i)));
    }
    law_interpolation_is_unique(a, b, nodes, x);
}

/// `y (y - 1) ... (y - n + 1)`.
spec fn vanish(n: nat, y: EF) -> EF
    decreases n,
{
    if n == 0 {
        EF::one_spec()
    } else {
        vanish((n - 1) as nat, y) * (y - node(n - 1))
    }
}

/// `k (k - 1) ... (k - n + 1)` in the base field.
spec fn node_product_spec(k: int, n: nat) -> F
    decreases n,
{
    if n == 0 {
        F::one_spec()
    } else {
        node_product_spec(k, (n - 1) as nat) * (F::of(k) - F::of(n - 1))
    }
}

proof fn lemma_vanish_at_node(k: int, n: nat)
    ensures
        vanish(n, node(k)) == EF::from_base_spec(node_product_spec(k, n)),
    decreases n,
{
    if n > 0 {
        lemma_vanish_at_node(k, (n - 1) as nat);
        ext::lemma_from_base_ring(F::of(k), F::of(n - 1));
        ext::lemma_from_base_ring(node_product_spec(k, (n - 1) as nat), F::of(k) - F::of(n - 1));
    }
}

proof fn lemma_vanish_below(i: int, n: nat)
    requires
        0 <= i < n,
    ensures
        vanish(n, node(i)) == EF::zero_spec(),
    decreases n,
{
    if i == n - 1 {
        ext::lemma_sub_self(node(i));
        ext::lemma_mul_zero(vanish((n - 1) as nat, node(i)));
    } else {
        lemma_vanish_below(i, (n - 1) as nat);
        ext::lemma_mul_zero(node(i) - node(n - 1));
    }
}

/// A product of elements other than zero is not zero.
pub proof fn lemma_product_nonzero(a: F, b: F)
    requires
        a.canonical(),
        b.canonical(),
        a != F::zero_spec(),
        b != F::zero_spec(),
    ensures
        a * b != F::zero_spec(),
{
    if a * b == F::zero_spec() {
        let u = units::lemma_inverse_exists(a);
        field::lemma_mul_comm(a, u);
        field::lemma_mul_assoc(u, a, b);
        field::lemma_mul_one(b);
        field::lemma_mul_zero(u);
    }
}

/// `k (k - 1) ... 1` in the base field.
fn node_product(k: usize) -> (r: F)
    requires
        k < MODULUS,
    ensures
        r == node_product_spec(k as int, k as nat),
        r != F::zero_spec(),
{
    let mut r = F::one();
    proof {
        field::lemma_of_val(0);
        field::lemma_of_val(1);
    }
    let mut i: usize = 0;
    while i < k
        invariant
            i <= k,
            k < MODULUS,
            r == node_product_spec(k as int, i as nat),
            r.canonical(),
            r != F::zero_spec(),
        decreases k - i,
    {
        let d = F::from_usize(k).sub(F::from_usize(i));
        proof {
            lemma_consecutive_distinct((k + 1) as nat);
            assert(consecutive((k + 1) as nat)[i as int] != consecutive((k + 1) as nat)[k as int]);
            field::lemma_of_val(k as int);
            field::lemma_of_val(i as int);
            let _ = lemma_difference(F::of(k as int), F::of(i as int));
            lemma_product_nonzero(r, d);
            field::lemma_of_val(r.val() * d.val());
        }
        r = r.mul(d);
        i = i + 1;
    }
    r
}

fn evaluate_coefficients(c: &Vec<EF>, x: EF) -> (r: EF)
    ensures
        r == poly_at(c@, x),
{
    let n: usize = c.len();
    let mut acc = EF::zero();
    let mut i: usize = n;
    assert(c@.subrange(n as int, n as int) =~= Seq::<EF>::empty());
    while i > 0
        invariant
            i <= n,
            n == c@.len(),
            acc == poly_at(c@.subrange(i as int, n as int), x),
        decreases i,
    {
        i = i - 1;
        assert(c@.subrange(i as int, n as int).drop_first() =~= c@.subrange(i + 1, n as int));
        acc = c[i].add(x.mul(acc));
    }
    assert(c@.subrange(0, n as int) =~= c@);
    acc
}

/// `p + t w`, where `w` is longer by one.
fn add_multiple(p: &Vec<EF>, t: EF, w: &Vec<EF>) -> (r: Vec<EF>)
    requires
        w@.len() == p@.len() + 1,
    ensures
        r@ == poly_add(p@, poly_times(t, w@)),
{
    let mut out: Vec<EF> = Vec::new();
    let n: usize = w.len();
    let mut i: usize = 0;
    while i < n
        invariant
            i <= n,
            n == w@.len(),
            n == p@.len() + 1,
            out@.len() == i,
            forall|m: int|
                0 <= m < i ==> #[trigger] out@[m] == coefficient(p@, m) + coefficient(poly_times(t, w@), m),
        decreases n - i,
    {
        let base = if i + 1 < n {
            p[i]
        } else {
            EF::zero()
        };
        out.push(base.add(t.mul(w[i])));
        i = i + 1;
    }
    assert(out@ =~= poly_add(p@, poly_times(t, w@)));
    out
}

/// `(X - a) w`.
fn times_linear(w: &Vec<EF>, a: F) -> (r: Vec<EF>)
    ensures
        r@ == poly_sub(poly_shift(w@), poly_times_base(w@, a)),
{
    let mut out: Vec<EF> = Vec::new();
    let n: usize = w.len();
    let ghost goal = poly_sub(poly_shift(w@), poly_times_base(w@, a));
    let mut below = EF::zero();
    let mut i: usize = 0;
    while i < n
        invariant
            i <= n,
            n == w@.len(),
            goal == poly_sub(poly_shift(w@), poly_times_base(w@, a)),
            below == poly_shift(w@)[i as int],
            out@.len() == i,
            forall|m: int| 0 <= m < i ==> #[trigger] out@[m] == goal[m],
        decreases n - i,
    {
        out.push(below.sub(w[i].scale(a)));
        below = w[i];
        i = i + 1;
    }
    out.push(below.sub(EF::zero()));
    assert(out@ =~= goal);
    out
}

proof fn lemma_times_linear(w: Seq<EF>, k: nat, y: EF)
    requires
        poly_at(w, y) == vanish(k, y),
    ensures
        poly_at(poly_sub(poly_shift(w), poly_times_base(w, F::of(k as int))), y) == vanish(k + 1, y),
{
    let a = F::of(k as int);
    let v = poly_at(w, y);
    lemma_at_sub(poly_shift(w), poly_times_base(w, a), y);
    lemma_at_shift(w, y);
    lemma_at_times_base(w, a, y);
    ext::lemma_mul_distrib_sub_right(v, y, node(k as int));
    ext::lemma_mul_comm(v, y);
    ext::lemma_scale_is_mul(v, a);
}

/// One more point.
proof fn lemma_extend(p: Seq<EF>, w: Seq<EF>, k: nat, value: EF, d: F, u: F, i: int)
    requires
        0 <= i <= k,
        value.canonical(),
        poly_at(w, node(i)) == vanish(k, node(i)),
        d == node_product_spec(k as int, k),
        d * u == F::one_spec(),
    ensures
        ({
            let t = (value - poly_at(p, node(k as int))).scale_spec(u);
            let next = poly_add(p, poly_times(t, w));
            &&& i < k ==> poly_at(next, node(i)) == poly_at(p, node(i))
            &&& i == k ==> poly_at(next, node(i)) == value
        }),
{
    let at = poly_at(p, node(k as int));
    let t = (value - at).scale_spec(u);
    lemma_at_add(p, poly_times(t, w), node(i));
    lemma_at_times(t, w, node(i));
    lemma_at_canonical(p, node(i));
    if i < k {
        lemma_vanish_below(i, k);
        ext::lemma_mul_zero(t);
        ext::lemma_add_zero(poly_at(p, node(i)));
    } else {
        lemma_vanish_at_node(i, k);
        ext::lemma_scale_is_mul(t, d);
        ext::lemma_scale_scale(value - at, u, d);
        field::lemma_mul_comm(d, u);
        ext::lemma_scale_is_mul(value - at, F::one_spec());
        ext::lemma_add_canonical(value, at);
        ext::lemma_mul_one(value - at);
        ext::lemma_sub_add_cancel(value, at);
        ext::lemma_add_comm(value - at, at);
    }
}

/// A polynomial by its coefficients, lowest first.
#[derive(Clone, Debug)]
pub struct DensePolynomial {
    pub coeffs: Vec<EF>,
}

impl DensePolynomial {
    /// The value at `x`.
    pub fn evaluate(&self, x: EF) -> (r: EF)
        ensures
            r == poly_at(self.coeffs@, x),
    {
        evaluate_coefficients(&self.coeffs, x)
    }

    /// The polynomial with as many coefficients as there are values that takes value `i` at the
    /// point `i` of the base field.
    pub fn interpolate(values: &Vec<EF>) -> (r: DensePolynomial)
        requires
            values@.len() < MODULUS,
        ensures
            r.coeffs@.len() == values@.len(),
            forall|i: int| 0 <= i < values@.len() ==> poly_at(r.coeffs@, #[trigger] node(i)) == values@[i],
    {
        let n: usize = values.len();
        let mut p: Vec<EF> = Vec::new();
        let mut w: Vec<EF> = Vec::new();
        w.push(EF::one());
        proof {
            assert forall|y: EF| #[trigger] poly_at(w@, y) == vanish(0, y) by {
                assert(w@.drop_first() =~= Seq::<EF>::empty());
                assert(poly_at(Seq::<EF>::empty(), y) == EF::zero_spec());
                ext::lemma_mul_zero(y);
                ext::lemma_constants_canonical();
                ext::lemma_add_zero(EF::one_spec());
            }
        }
        let mut k: usize = 0;
        while k < n
            invariant
                k <= n,
                n == values@.len(),
                n < MODULUS,
                p@.len() == k,
                w@.len() == k + 1,
                forall|y: EF| #[trigger] poly_at(w@, y) == vanish(k as nat, y),
                forall|i: int| 0 <= i < k ==> poly_at(p@, #[trigger] node(i)) == values@[i],
            decreases n - k,
        {
            let x = F::from_usize(k);
            let at = evaluate_coefficients(&p, EF::from_base(x));
            let d = node_product(k);
            let value = values[k];
            let u = d.inverse();
            let t = value.sub(at).scale(u);
            let next_p = add_multiple(&p, t, &w);
            let next_w = times_linear(&w, x);
            value.assert_canonical();
            proof {
                assert forall|i: int| 0 <= i <= k implies poly_at(next_p@, #[trigger] node(i)) == values@[i] by {
                    lemma_extend(p@, w@, k as nat, value, d, u, i);
                }
                assert forall|y: EF| #[trigger] poly_at(next_w@, y) == vanish((k + 1) as nat, y) by {
                    lemma_times_linear(w@, k as nat, y);
                }
            }
            p = next_p;
            w = next_w;
            k = k + 1;
        }
        DensePolynomial { coeffs: p }
    }
}

} // verus!
