//! Evaluation of a polynomial at points of the base field from its values at others.
use crate::ext;
use crate::ext::EF;
use crate::field;
use crate::field::F;
use crate::poly;
use crate::sums;
use vstd::prelude::*;

verus! {

/// The product of `y - nodes[j]` over the first `n` nodes but node `i`.
pub open spec fn numerator(nodes: Seq<F>, i: int, n: nat, y: F) -> F
    decreases n,
{
    if n == 0 {
        F::one_spec()
    } else if n - 1 == i {
        numerator(nodes, i, (n - 1) as nat, y)
    } else {
        numerator(nodes, i, (n - 1) as nat, y) * (y - nodes[n - 1])
    }
}

/// The same product as a polynomial in `y`.
spec fn numerator_poly(nodes: Seq<F>, i: int, n: nat) -> Seq<EF>
    decreases n,
{
    if n == 0 {
        seq![EF::one_spec()]
    } else {
        let p = numerator_poly(nodes, i, (n - 1) as nat);
        if n - 1 == i {
            p
        } else {
            poly::poly_sub(poly::poly_shift(p), poly::poly_times_base(p, nodes[n - 1]))
        }
    }
}

proof fn lemma_numerator_poly(nodes: Seq<F>, i: int, n: nat, y: F)
    ensures
        numerator_poly(nodes, i, n).len() == (if 0 <= i < n {
            n
        } else {
            n + 1
        }),
        poly::poly_at(numerator_poly(nodes, i, n), EF::from_base_spec(y)) == EF::from_base_spec(
            numerator(nodes, i, n, y),
        ),
    decreases n,
{
    let x = EF::from_base_spec(y);
    if n == 0 {
        let c = numerator_poly(nodes, i, n);
        assert(c.drop_first() =~= Seq::<EF>::empty());
        assert(poly::poly_at(Seq::<EF>::empty(), x) == EF::zero_spec());
        ext::lemma_mul_zero(x);
        ext::lemma_constants_canonical();
        ext::lemma_add_zero(EF::one_spec());
    } else {
        let b: nat = (n - 1) as nat;
        lemma_numerator_poly(nodes, i, b, y);
        if n - 1 != i {
            let p = numerator_poly(nodes, i, b);
            let a = nodes[n - 1];
            let v = numerator(nodes, i, b, y);
            poly::lemma_at_sub(poly::poly_shift(p), poly::poly_times_base(p, a), x);
            poly::lemma_at_shift(p, x);
            poly::lemma_at_times_base(p, a, x);
            ext::lemma_from_base_ring(y, v);
            ext::lemma_from_base_ring(v, a);
            ext::lemma_from_base_ring(y * v, v * a);
            field::lemma_mul_comm(y, v);
            field::lemma_mul_distrib_sub(v, y, a);
        }
    }
}

/// The product is zero at every node but node `i`.
proof fn lemma_numerator_zero(nodes: Seq<F>, i: int, n: nat, j: int)
    requires
        0 <= j < n <= nodes.len(),
        j != i,
    ensures
        numerator(nodes, i, n, nodes[j]) == F::zero_spec(),
    decreases n,
{
    let y = nodes[j];
    let b: nat = (n - 1) as nat;
    if n - 1 == j {
        field::lemma_sub_self(y);
        field::lemma_mul_zero(numerator(nodes, i, b, y));
    } else {
        lemma_numerator_zero(nodes, i, b, j);
        field::lemma_mul_zero(y - nodes[n - 1]);
    }
}

/// The product is not zero at node `i`.
proof fn lemma_numerator_nonzero(nodes: Seq<F>, i: int, n: nat)
    requires
        0 <= i < nodes.len(),
        n <= nodes.len(),
        poly::distinct(nodes),
    ensures
        numerator(nodes, i, n, nodes[i]) != F::zero_spec(),
        numerator(nodes, i, n, nodes[i]).canonical(),
    decreases n,
{
    if n == 0 {
        field::lemma_of_val(0);
        field::lemma_of_val(1);
    } else {
        let b: nat = (n - 1) as nat;
        lemma_numerator_nonzero(nodes, i, b);
        if n - 1 != i {
            assert(nodes[n - 1].canonical() && nodes[i].canonical());
            if n - 1 < i {
                assert(nodes[n - 1] != nodes[i]);
            } else {
                assert(nodes[i] != nodes[n - 1]);
            }
            let _ = poly::lemma_difference(nodes[i], nodes[n - 1]);
            let v = numerator(nodes, i, b, nodes[i]);
            let d = nodes[i] - nodes[n - 1];
            poly::lemma_product_nonzero(v, d);
            field::lemma_of_val(v.val() * d.val());
        }
    }
}

/// The combination of the values `v` with the weights `w`.
pub open spec fn weighted(n: nat, v: spec_fn(int) -> EF, w: Seq<F>) -> EF {
    sums::sum(n, |i: int| v(i).scale_spec(w[i]))
}

/// The values of a polynomial at the nodes.
pub open spec fn at_nodes(c: Seq<EF>, nodes: Seq<F>) -> spec_fn(int) -> EF {
    |i: int| poly::poly_at(c, EF::from_base_spec(nodes[i]))
}

/// The weights that the normalised products give at `y` take the values of a polynomial at the nodes
/// to its value at `y`.
proof fn lemma_weights(c: Seq<EF>, nodes: Seq<F>, u: Seq<F>, w: Seq<F>, y: F)
    requires
        c.len() <= nodes.len(),
        poly::distinct(nodes),
        u.len() == nodes.len(),
        w.len() == nodes.len(),
        forall|i: int|
            0 <= i < nodes.len() ==> numerator(nodes, i, nodes.len(), nodes[i]) * #[trigger] u[i] == F::one_spec(),
        forall|i: int|
            0 <= i < nodes.len() ==> #[trigger] w[i] == numerator(nodes, i, nodes.len(), y) * u[i],
    ensures
        poly::poly_at(c, EF::from_base_spec(y)) == weighted(nodes.len(), at_nodes(c, nodes), w),
{
    let n = nodes.len();
    let z = EF::zero_spec();
    let value = at_nodes(c, nodes);
    let f = |i: int| poly::poly_times(value(i).scale_spec(u[i]), numerator_poly(nodes, i, n));
    let p = poly::poly_sum(n, f);
    assert forall|i: int| 0 <= i < n implies (#[trigger] f(i)).len() <= n by {
        lemma_numerator_poly(nodes, i, n, y);
    }
    assert forall|j: int| 0 <= j < n implies poly::poly_at(p, EF::from_base_spec(#[trigger] nodes[j])) == poly::poly_at(
        c,
        EF::from_base_spec(nodes[j]),
    ) by {
        let x = EF::from_base_spec(nodes[j]);
        poly::lemma_poly_sum(n, f, n, x);
        let g = |i: int| poly::poly_at(f(i), x);
        assert forall|i: int| 0 <= i < n && i != j implies #[trigger] g(i) == z by {
            lemma_term(value(i), nodes, i, u[i], nodes[j]);
            lemma_numerator_zero(nodes, i, n, j);
            field::lemma_mul_zero(u[i]);
            ext::lemma_scale_zero(value(i));
        }
        lemma_term(value(j), nodes, j, u[j], nodes[j]);
        assert(numerator(nodes, j, n, nodes[j]) * u[j] == F::one_spec());
        poly::lemma_at_canonical(c, x);
        ext::lemma_scale_is_mul(value(j), F::one_spec());
        ext::lemma_mul_one(value(j));
        assert(g(j) == value(j));
        sums::lemma_sum_single(n, j, g);
    }
    let x = EF::from_base_spec(y);
    poly::lemma_poly_sum(n, f, n, x);
    poly::law_interpolation_is_unique(c, p, nodes, x);
    let a = |i: int| poly::poly_at(f(i), x);
    let b = |i: int| value(i).scale_spec(w[i]);
    assert forall|i: int| 0 <= i < n implies #[trigger] a(i) == b(i) by {
        lemma_term(value(i), nodes, i, u[i], y);
        assert(w[i] == numerator(nodes, i, n, y) * u[i]);
    }
    sums::lemma_sum_ext(n, a, b);
}

/// One normalised product at `y`.
proof fn lemma_term(v: EF, nodes: Seq<F>, i: int, u: F, y: F)
    ensures
        poly::poly_at(
            poly::poly_times(v.scale_spec(u), numerator_poly(nodes, i, nodes.len())),
            EF::from_base_spec(y),
        ) == v.scale_spec(numerator(nodes, i, nodes.len(), y) * u),
{
    let n = nodes.len();
    let x = EF::from_base_spec(y);
    let t = numerator(nodes, i, n, y);
    poly::lemma_at_times(v.scale_spec(u), numerator_poly(nodes, i, n), x);
    lemma_numerator_poly(nodes, i, n, y);
    ext::lemma_scale_is_mul(v.scale_spec(u), t);
    ext::lemma_scale_scale(v, u, t);
    field::lemma_mul_comm(u, t);
}

fn numerator_at(nodes: &Vec<F>, i: usize, y: F) -> (r: F)
    ensures
        r == numerator(nodes@, i as int, nodes@.len(), y),
{
    let mut r = F::one();
    let mut j: usize = 0;
    while j < nodes.len()
        invariant
            j <= nodes@.len(),
            r == numerator(nodes@, i as int, j as nat, y),
        decreases nodes@.len() - j,
    {
        if j != i {
            r = r.mul(y.sub(nodes[j]));
        }
        j = j + 1;
    }
    r
}

/// For each point, the weights that take the values of any polynomial with no more coefficients than
/// there are nodes to its value at the point.
pub fn lagrange_basis_evals(nodes: &Vec<F>, points: &Vec<F>) -> (r: Vec<Vec<F>>)
    requires
        poly::distinct(nodes@),
    ensures
        r@.len() == points@.len(),
        forall|t: int| 0 <= t < points@.len() ==> (#[trigger] r@[t])@.len() == nodes@.len(),
        forall|t: int, c: Seq<EF>|
            0 <= t < points@.len() && c.len() <= nodes@.len() ==> #[trigger] weighted(
                nodes@.len(),
                at_nodes(c, nodes@),
                r@[t]@,
            ) == poly::poly_at(c, EF::from_base_spec(points@[t])),
{
    let n: usize = nodes.len();
    let mut inverses: Vec<F> = Vec::new();
    let mut i: usize = 0;
    while i < n
        invariant
            i <= n,
            n == nodes@.len(),
            poly::distinct(nodes@),
            inverses@.len() == i,
            forall|m: int|
                0 <= m < i ==> numerator(nodes@, m, nodes@.len(), nodes@[m]) * #[trigger] inverses@[m]
                    == F::one_spec(),
        decreases n - i,
    {
        let d = numerator_at(nodes, i, nodes[i]);
        proof {
            lemma_numerator_nonzero(nodes@, i as int, nodes@.len());
        }
        inverses.push(d.inverse());
        i = i + 1;
    }
    let mut out: Vec<Vec<F>> = Vec::new();
    let mut t: usize = 0;
    while t < points.len()
        invariant
            t <= points@.len(),
            n == nodes@.len(),
            poly::distinct(nodes@),
            inverses@.len() == n,
            forall|m: int|
                0 <= m < n ==> numerator(nodes@, m, nodes@.len(), nodes@[m]) * #[trigger] inverses@[m]
                    == F::one_spec(),
            out@.len() == t,
            forall|s: int| 0 <= s < t ==> (#[trigger] out@[s])@.len() == n,
            forall|s: int, c: Seq<EF>|
                0 <= s < t && c.len() <= nodes@.len() ==> #[trigger] weighted(
                    nodes@.len(),
                    at_nodes(c, nodes@),
                    out@[s]@,
                ) == poly::poly_at(c, EF::from_base_spec(points@[s])),
        decreases points@.len() - t,
    {
        let y = points[t];
        let mut w: Vec<F> = Vec::new();
        let mut i: usize = 0;
        while i < n
            invariant
                i <= n,
                n == nodes@.len(),
                inverses@.len() == n,
                w@.len() == i,
                forall|m: int|
                    0 <= m < i ==> #[trigger] w@[m] == numerator(nodes@, m, nodes@.len(), y) * inverses@[m],
            decreases n - i,
        {
            w.push(numerator_at(nodes, i, y).mul(inverses[i]));
            i = i + 1;
        }
        proof {
            assert forall|c: Seq<EF>| c.len() <= nodes@.len() implies #[trigger] weighted(
                nodes@.len(),
                at_nodes(c, nodes@),
                w@,
            ) == poly::poly_at(c, EF::from_base_spec(y)) by {
                lemma_weights(c, nodes@, inverses@, w@, y);
            }
        }
        out.push(w);
        t = t + 1;
    }
    out
}

} // verus!
