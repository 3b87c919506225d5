//! The rounds of the sumcheck of a linear claim: folding, and the polynomial of a round.
use crate::ext;
use crate::ext::EF;
use crate::field;
use crate::field::F;
use crate::mle;
use crate::ntt;
use crate::poly;
use crate::poly::DensePolynomial;
use crate::sums;
use vstd::arithmetic::power2::*;
use vstd::prelude::*;

verus! {

/// One half.
pub open spec fn half() -> EF {
    EF::from_base_spec(F::of(1065353217))
}

pub proof fn lemma_half()
    ensures
        half() + half() == EF::one_spec(),
        EF::one_spec() - half() == half(),
        half().canonical(),
{
    ext::lemma_from_base_ring(F::of(1065353217), F::of(1065353217));
    field::lemma_of_add(1065353217, 1065353217);
    field::lemma_of_shift(1, 1);
    field::lemma_of_val(1065353217);
    ext::lemma_from_base_canonical(F::of(1065353217));
    ext::lemma_sub_add_cancel(half(), half());
}

/// The challenge of the equality polynomial in every round of a linear claim: one half.
pub fn virtual_linear_eq_alpha() -> (r: EF)
    ensures
        r == half(),
        r + r == EF::one_spec(),
{
    let two = F::new(2);
    proof {
        field::lemma_of_val(2);
        field::lemma_of_val(0);
    }
    let inverse = two.inverse();
    let _ = inverse.as_u32();
    proof {
        // The inverse of two is unique.
        let h = F::of(1065353217);
        field::lemma_of_mul(2, 1065353217);
        field::lemma_of_shift(1, 1);
        field::lemma_mul_one(inverse);
        field::lemma_of_val(1065353217);
        field::lemma_mul_one(h);
        field::lemma_mul_assoc(inverse, two, h);
        field::lemma_mul_comm(inverse, two);
        lemma_half();
    }
    EF::from_base(inverse)
}

/// The value of the equality polynomial at `n_vars` coordinates of one half.
pub fn constant_half_eq_eval(n_vars: usize) -> (r: EF)
    ensures
        r == half().pow(n_vars as nat),
{
    let h = virtual_linear_eq_alpha();
    let mut acc = EF::one();
    let mut i: usize = 0;
    while i < n_vars
        invariant
            i <= n_vars,
            h == half(),
            acc == half().pow(i as nat),
        decreases n_vars - i,
    {
        acc = acc.mul(h);
        i = i + 1;
    }
    acc
}

/// The factor of one round of the equality polynomial.
pub open spec fn eq_step(alpha: EF, r: EF) -> EF {
    (EF::one_spec() - alpha) * (EF::one_spec() - r) + alpha * r
}

/// The factor of one round of the equality polynomial.
pub fn eq_step_eval(alpha: EF, r: EF) -> (v: EF)
    ensures
        v == eq_step(alpha, r),
{
    EF::one().sub(alpha).mul(EF::one().sub(r)).add(alpha.mul(r))
}

/// With one half, the factor is one half whatever the challenge.
pub proof fn lemma_half_step(r: EF)
    requires
        r.canonical(),
    ensures
        eq_step(half(), r) == half(),
{
    let one = EF::one_spec();
    lemma_half();
    ext::lemma_constants_canonical();
    ext::lemma_mul_distrib_right(half(), one - r, r);
    ext::lemma_sub_add_cancel(one, r);
    ext::lemma_mul_one(half());
}

/// The value at `x` of the line through `a` at zero and `b` at one.
pub open spec fn line(a: EF, b: EF, x: EF) -> EF {
    a + x * (b - a)
}

/// A line as a polynomial.
pub open spec fn line_poly(a: EF, b: EF) -> Seq<EF> {
    seq![a, b - a]
}

pub proof fn lemma_line_poly(a: EF, b: EF, x: EF)
    ensures
        poly::poly_at(line_poly(a, b), x) == line(a, b, x),
{
    let c = line_poly(a, b);
    let t = c.drop_first();
    let z = EF::zero_spec();
    assert(t =~= seq![b - a]);
    assert(t.drop_first() =~= Seq::<EF>::empty());
    assert(poly::poly_at(Seq::<EF>::empty(), x) == z);
    ext::lemma_mul_zero(x);
    ext::lemma_add_canonical(b, a);
    ext::lemma_add_zero(b - a);
    assert(poly::poly_at(t, x) == b - a);
}

/// A line at zero, one and two.
pub proof fn lemma_line_nodes(a: EF, b: EF)
    requires
        a.canonical(),
    ensures
        line(a, b, poly::node(0)) == a,
        line(a, b, poly::node(1)) == a + (b - a),
        line(a, b, poly::node(2)) == a + ((b - a) + (b - a)),
        b.canonical() ==> line(a, b, poly::node(1)) == b,
{
    let d = b - a;
    let one = EF::one_spec();
    ext::lemma_add_canonical(b, a);
    ext::lemma_mul_zero(d);
    ext::lemma_add_zero(a);
    ext::lemma_mul_one(d);
    ext::lemma_from_base_ring(F::of(1), F::of(1));
    field::lemma_of_add(1, 1);
    assert(poly::node(2) == one + one);
    ext::lemma_mul_distrib_left(one, one, d);
    if b.canonical() {
        ext::lemma_sub_add_cancel(b, a);
        ext::lemma_add_comm(a, d);
    }
}

/// The sum, over `m` columns and the pairs of their rows, of the products of the lines through the
/// values and through the coefficients of the pair.
pub open spec fn product_round(
    m: nat,
    pairs: nat,
    v: spec_fn(int, int) -> EF,
    c: spec_fn(int, int) -> EF,
    x: EF,
) -> EF {
    sums::sum(
        m,
        |s: int|
            sums::sum(
                pairs,
                |j: int| line(v(s, 2 * j), v(s, 2 * j + 1), x) * line(c(s, 2 * j), c(s, 2 * j + 1), x),
            ),
    )
}

/// The sum, over `m` columns of `n` rows, of the products of values and coefficients.
pub open spec fn product_sum(m: nat, n: nat, v: spec_fn(int, int) -> EF, c: spec_fn(int, int) -> EF) -> EF {
    sums::sum(m, |s: int| sums::sum(n, |i: int| v(s, i) * c(s, i)))
}

/// The polynomial of a round of a linear claim.
pub open spec fn round_poly(
    m: nat,
    pairs: nat,
    v: spec_fn(int, int) -> EF,
    c: spec_fn(int, int) -> EF,
    weight: EF,
) -> Seq<EF> {
    poly::poly_times(
        weight,
        poly::poly_sum(
            m,
            |s: int|
                poly::poly_sum(
                    pairs,
                    |j: int|
                        poly::poly_mul(
                            line_poly(v(s, 2 * j), v(s, 2 * j + 1)),
                            line_poly(c(s, 2 * j), c(s, 2 * j + 1)),
                        ),
                ),
        ),
    )
}

pub proof fn lemma_round_poly(
    m: nat,
    pairs: nat,
    v: spec_fn(int, int) -> EF,
    c: spec_fn(int, int) -> EF,
    weight: EF,
    x: EF,
)
    ensures
        round_poly(m, pairs, v, c, weight).len() <= 3,
        poly::poly_at(round_poly(m, pairs, v, c, weight), x) == weight * product_round(m, pairs, v, c, x),
{
    let outer = |s: int|
        poly::poly_sum(
            pairs,
            |j: int|
                poly::poly_mul(
                    line_poly(v(s, 2 * j), v(s, 2 * j + 1)),
                    line_poly(c(s, 2 * j), c(s, 2 * j + 1)),
                ),
        );
    let values = |s: int|
        sums::sum(
            pairs,
            |j: int| line(v(s, 2 * j), v(s, 2 * j + 1), x) * line(c(s, 2 * j), c(s, 2 * j + 1), x),
        );
    let at = |s: int| poly::poly_at(outer(s), x);
    assert forall|s: int| 0 <= s < m implies (#[trigger] outer(s)).len() <= 3 && at(s) == values(s) by {
        let inner = |j: int|
            poly::poly_mul(
                line_poly(v(s, 2 * j), v(s, 2 * j + 1)),
                line_poly(c(s, 2 * j), c(s, 2 * j + 1)),
            );
        let a = |j: int| poly::poly_at(inner(j), x);
        let b = |j: int| line(v(s, 2 * j), v(s, 2 * j + 1), x) * line(c(s, 2 * j), c(s, 2 * j + 1), x);
        assert forall|j: int| 0 <= j < pairs implies (#[trigger] inner(j)).len() <= 3 && a(j) == b(j) by {
            let p = line_poly(v(s, 2 * j), v(s, 2 * j + 1));
            let q = line_poly(c(s, 2 * j), c(s, 2 * j + 1));
            poly::lemma_mul_len(p, q);
            poly::lemma_at_mul(p, q, x);
            lemma_line_poly(v(s, 2 * j), v(s, 2 * j + 1), x);
            lemma_line_poly(c(s, 2 * j), c(s, 2 * j + 1), x);
        }
        poly::lemma_poly_sum(pairs, inner, 3, x);
        assert forall|j: int| 0 <= j < pairs implies #[trigger] a(j) == b(j) by {
            assert(inner(j).len() <= 3);
        }
        sums::lemma_sum_ext(pairs, a, b);
    }
    poly::lemma_poly_sum(m, outer, 3, x);
    assert forall|s: int| 0 <= s < m implies #[trigger] at(s) == values(s) by {
        assert(outer(s).len() <= 3);
    }
    sums::lemma_sum_ext(m, at, values);
    poly::lemma_at_times(weight, poly::poly_sum(m, outer), x);
}

/// A polynomial with three coefficients that agrees with the round at zero, one and two is the
/// polynomial of the round.
pub proof fn lemma_round_unique(
    p: Seq<EF>,
    m: nat,
    pairs: nat,
    v: spec_fn(int, int) -> EF,
    c: spec_fn(int, int) -> EF,
    weight: EF,
    x: EF,
)
    requires
        p.len() <= 3,
        forall|i: int|
            0 <= i < 3 ==> poly::poly_at(p, #[trigger] poly::node(i)) == weight * product_round(
                m,
                pairs,
                v,
                c,
                poly::node(i),
            ),
    ensures
        poly::poly_at(p, x) == weight * product_round(m, pairs, v, c, x),
{
    let q = round_poly(m, pairs, v, c, weight);
    lemma_round_poly(m, pairs, v, c, weight, x);
    assert forall|i: int| 0 <= i < 3 implies poly::poly_at(p, #[trigger] poly::node(i)) == poly::poly_at(
        q,
        poly::node(i),
    ) by {
        lemma_round_poly(m, pairs, v, c, weight, poly::node(i));
    }
    poly::lemma_consecutive_unique(p, q, 3, x);
}

/// The values of a round at zero and one add up to the sum of all products.
pub proof fn lemma_round_sum(m: nat, pairs: nat, v: spec_fn(int, int) -> EF, c: spec_fn(int, int) -> EF)
    requires
        forall|s: int, i: int| 0 <= s < m && 0 <= i < 2 * pairs ==> (#[trigger] v(s, i)).canonical(),
        forall|s: int, i: int| 0 <= s < m && 0 <= i < 2 * pairs ==> (#[trigger] c(s, i)).canonical(),
    ensures
        product_round(m, pairs, v, c, poly::node(0)) + product_round(m, pairs, v, c, poly::node(1)) == product_sum(
            m,
            2 * pairs,
            v,
            c,
        ),
{
    let a0 = |s: int|
        sums::sum(
            pairs,
            |j: int|
                line(v(s, 2 * j), v(s, 2 * j + 1), poly::node(0)) * line(
                    c(s, 2 * j),
                    c(s, 2 * j + 1),
                    poly::node(0),
                ),
        );
    let a1 = |s: int|
        sums::sum(
            pairs,
            |j: int|
                line(v(s, 2 * j), v(s, 2 * j + 1), poly::node(1)) * line(
                    c(s, 2 * j),
                    c(s, 2 * j + 1),
                    poly::node(1),
                ),
        );
    let both = |s: int| a0(s) + a1(s);
    let total = |s: int| sums::sum(2 * pairs, |i: int| v(s, i) * c(s, i));
    sums::lemma_sum_add(m, a0, a1);
    assert forall|s: int| 0 <= s < m implies #[trigger] both(s) == total(s) by {
        let f = |i: int| v(s, i) * c(s, i);
        sums::lemma_sum_even_odd(pairs, f);
        let e = |j: int| f(2 * j);
        let o = |j: int| f(2 * j + 1);
        let l0 = |j: int|
            line(v(s, 2 * j), v(s, 2 * j + 1), poly::node(0)) * line(c(s, 2 * j), c(s, 2 * j + 1), poly::node(0));
        let l1 = |j: int|
            line(v(s, 2 * j), v(s, 2 * j + 1), poly::node(1)) * line(c(s, 2 * j), c(s, 2 * j + 1), poly::node(1));
        assert forall|j: int| 0 <= j < pairs implies #[trigger] l0(j) == e(j) by {
            assert(v(s, 2 * j).canonical() && c(s, 2 * j).canonical());
            lemma_line_nodes(v(s, 2 * j), v(s, 2 * j + 1));
            lemma_line_nodes(c(s, 2 * j), c(s, 2 * j + 1));
        }
        assert forall|j: int| 0 <= j < pairs implies #[trigger] l1(j) == o(j) by {
            assert(v(s, 2 * j).canonical() && c(s, 2 * j).canonical());
            assert(v(s, 2 * j + 1).canonical() && c(s, 2 * j + 1).canonical());
            lemma_line_nodes(v(s, 2 * j), v(s, 2 * j + 1));
            lemma_line_nodes(c(s, 2 * j), c(s, 2 * j + 1));
        }
        sums::lemma_sum_ext(pairs, l0, e);
        sums::lemma_sum_ext(pairs, l1, o);
    }
    sums::lemma_sum_ext(m, both, total);
}

/// Every value at run time is canonical.
pub fn columns_canonical(columns: &Vec<Vec<EF>>)
    ensures
        forall|s: int, i: int|
            0 <= s < columns@.len() && 0 <= i < columns@[s]@.len() ==> (#[trigger] columns@[s]@[i]).canonical(),
{
    let mut s: usize = 0;
    while s < columns.len()
        invariant
            s <= columns@.len(),
            forall|t: int, i: int|
                0 <= t < s && 0 <= i < columns@[t]@.len() ==> (#[trigger] columns@[t]@[i]).canonical(),
        decreases columns@.len() - s,
    {
        ntt::known_canonical(&columns[s]);
        s = s + 1;
    }
}

/// Sets the lowest variable of every column to `challenge`.
pub fn fold_adjacent(columns: &mut Vec<Vec<EF>>, challenge: EF)
    ensures
        final(columns)@.len() == old(columns)@.len(),
        forall|s: int|
            0 <= s < old(columns)@.len() ==> (#[trigger] final(columns)@[s])@.len() == old(columns)@[s]@.len() / 2,
        forall|s: int, j: int|
            0 <= s < old(columns)@.len() && 0 <= j < old(columns)@[s]@.len() / 2
                ==> #[trigger] final(columns)@[s]@[j] == line(
                old(columns)@[s]@[2 * j],
                old(columns)@[s]@[2 * j + 1],
                challenge,
            ),
{
    let ghost before = columns@;
    let mut s: usize = 0;
    while s < columns.len()
        invariant
            s <= columns@.len(),
            columns@.len() == before.len(),
            forall|t: int| s <= t < before.len() ==> #[trigger] columns@[t] == before[t],
            forall|t: int| 0 <= t < s ==> (#[trigger] columns@[t])@.len() == before[t]@.len() / 2,
            forall|t: int, j: int|
                0 <= t < s && 0 <= j < before[t]@.len() / 2 ==> #[trigger] columns@[t]@[j] == line(
                    before[t]@[2 * j],
                    before[t]@[2 * j + 1],
                    challenge,
                ),
        decreases before.len() - s,
    {
        let len: usize = columns[s].len();
        let half_len: usize = len / 2;
        let mut out: Vec<EF> = Vec::new();
        let mut j: usize = 0;
        while j < half_len
            invariant
                j <= half_len,
                s < columns@.len(),
                columns@.len() == before.len(),
                columns@[s as int] == before[s as int],
                len == before[s as int]@.len(),
                half_len == len / 2,
                out@.len() == j,
                forall|m: int|
                    0 <= m < j ==> #[trigger] out@[m] == line(
                        before[s as int]@[2 * m],
                        before[s as int]@[2 * m + 1],
                        challenge,
                    ),
            decreases half_len - j,
        {
            let lo = columns[s][2 * j];
            let hi = columns[s][2 * j + 1];
            out.push(lo.add(challenge.mul(hi.sub(lo))));
            j = j + 1;
        }
        columns.set(s, out);
        s = s + 1;
    }
}

/// The polynomial through three values at zero, one and two.
pub fn quadratic(e0: EF, e1: EF, e2: EF) -> (r: DensePolynomial)
    ensures
        r.coeffs@.len() == 3,
        poly::poly_at(r.coeffs@, poly::node(0)) == e0,
        poly::poly_at(r.coeffs@, poly::node(1)) == e1,
        poly::poly_at(r.coeffs@, poly::node(2)) == e2,
{
    let mut values: Vec<EF> = Vec::new();
    values.push(e0);
    values.push(e1);
    values.push(e2);
    let r = DensePolynomial::interpolate(&values);
    assert(poly::poly_at(r.coeffs@, poly::node(0)) == values@[0]);
    assert(poly::poly_at(r.coeffs@, poly::node(1)) == values@[1]);
    assert(poly::poly_at(r.coeffs@, poly::node(2)) == values@[2]);
    r
}

/// A column with its variables set, lowest first, to `challenges`.
pub open spec fn folded_by(v: spec_fn(int) -> EF, challenges: Seq<EF>) -> spec_fn(int) -> EF
    decreases challenges.len(),
{
    if challenges.len() == 0 {
        v
    } else {
        folded_by(mle::folded(v, challenges[0]), challenges.drop_first())
    }
}

/// What folding leaves of a column when every variable is set is the value of its multilinear
/// polynomial at the challenges, the last of which goes with the highest variable.
pub proof fn law_folding_evaluates(v: spec_fn(int) -> EF, challenges: Seq<EF>)
    requires
        forall|i: int| (#[trigger] v(i)).canonical(),
        forall|i: int| 0 <= i < challenges.len() ==> (#[trigger] challenges[i]).canonical(),
    ensures
        folded_by(v, challenges)(0) == mle::mle_at(v, challenges.reverse()),
    decreases challenges.len(),
{
    let point = challenges.reverse();
    if challenges.len() == 0 {
        lemma2_to64();
        let f = |i: int| v(i) * mle::eq_weight(point, i);
        assert(sums::sum(1, f) == sums::sum(0, f) + f(0));
        ext::lemma_mul_one(v(0));
        ext::lemma_add_zero(v(0));
        ext::lemma_add_comm(EF::zero_spec(), v(0));
    } else {
        let r = challenges[0];
        let rest = challenges.drop_first();
        let w = mle::folded(v, r);
        assert forall|i: int| (#[trigger] w(i)).canonical() by {
            ext::lemma_add_canonical(v(2 * i), r * (v(2 * i + 1) - v(2 * i)));
        }
        assert forall|i: int| 0 <= i < rest.len() implies (#[trigger] rest[i]).canonical() by {
            assert(challenges[i + 1].canonical());
        }
        law_folding_evaluates(w, rest);
        assert(point.last() == r);
        assert(point.drop_last() =~= rest.reverse());
        mle::lemma_mle_fold(v, point);
    }
}

} // verus!
