//! Multilinear polynomials by their values on the hypercube.
use crate::ext;
use crate::ext::EF;
use crate::poly;
use crate::sums;
use vstd::arithmetic::power2::*;
use vstd::prelude::*;

verus! {

/// The weight of index `i` at `point`: the product, over the coordinates, of the coordinate where the
/// digit of `i` is one and of one minus it elsewhere; the last coordinate goes with the lowest digit.
pub open spec fn eq_weight(point: Seq<EF>, i: int) -> EF
    decreases point.len(),
{
    if point.len() == 0 {
        EF::one_spec()
    } else {
        eq_weight(point.drop_last(), i / 2) * (if i % 2 == 1 {
            point.last()
        } else {
            EF::one_spec() - point.last()
        })
    }
}

/// The value at `point` of the multilinear polynomial with the values `v` on the hypercube.
pub open spec fn mle_at(v: spec_fn(int) -> EF, point: Seq<EF>) -> EF {
    sums::sum(pow2(point.len()), |i: int| v(i) * eq_weight(point, i))
}

/// One step of folding: the values of the polynomial with its lowest variable set to `r`.
pub open spec fn folded(v: spec_fn(int) -> EF, r: EF) -> spec_fn(int) -> EF {
    |j: int| v(2 * j) + r * (v(2 * j + 1) - v(2 * j))
}

/// The weights of all indices at `point`.
pub fn eval_eq(point: &Vec<EF>) -> (r: Vec<EF>)
    requires
        pow2(point@.len()) <= usize::MAX,
    ensures
        r@.len() == pow2(point@.len()),
        forall|i: int| 0 <= i < r@.len() ==> #[trigger] r@[i] == eq_weight(point@, i),
{
    let mut out: Vec<EF> = Vec::new();
    out.push(EF::one());
    let n: usize = point.len();
    let mut k: usize = 0;
    proof {
        lemma2_to64();
    }
    while k < n
        invariant
            k <= n,
            n == point@.len(),
            pow2(n as nat) <= usize::MAX,
            out@.len() == pow2(k as nat),
            forall|i: int| 0 <= i < out@.len() ==> #[trigger] out@[i] == eq_weight(point@.subrange(0, k as int), i),
        decreases n - k,
    {
        let p = point[k];
        let q = EF::one().sub(p);
        let mut next: Vec<EF> = Vec::new();
        let mut i: usize = 0;
        let ghost head = point@.subrange(0, k as int);
        let ghost longer = point@.subrange(0, k + 1);
        proof {
            assert(longer.drop_last() =~= head);
            assert(longer.last() == p);
        }
        while i < out.len()
            invariant
                i <= out@.len(),
                next@.len() == 2 * i,
                longer.len() > 0,
                longer.drop_last() == head,
                longer.last() == p,
                q == EF::one_spec() - p,
                forall|m: int| 0 <= m < out@.len() ==> #[trigger] out@[m] == eq_weight(head, m),
                forall|m: int| 0 <= m < next@.len() ==> #[trigger] next@[m] == eq_weight(longer, m),
            decreases out@.len() - i,
        {
            let w = out[i];
            next.push(w.mul(q));
            next.push(w.mul(p));
            i = i + 1;
        }
        proof {
            lemma_pow2_unfold((k + 1) as nat);
        }
        out = next;
        k = k + 1;
    }
    assert(point@.subrange(0, n as int) =~= point@);
    out
}

/// `a (1 - r) + b r` is `a + r (b - a)`.
pub proof fn lemma_line(a: EF, b: EF, r: EF)
    requires
        a.canonical(),
        b.canonical(),
        r.canonical(),
    ensures
        a * (EF::one_spec() - r) + b * r == a + r * (b - a),
{
    let one = EF::one_spec();
    ext::lemma_mul_distrib_sub_right(a, one, r);
    ext::lemma_mul_one(a);
    ext::lemma_mul_distrib_sub_right(r, b, a);
    ext::lemma_mul_comm(r, b);
    ext::lemma_mul_comm(r, a);
    // (a - a r) + b r == a + (b r - a r)
    ext::lemma_sub_is_add_neg(a, a * r);
    ext::lemma_sub_is_add_neg(b * r, a * r);
    let n = (a * r).negate_spec();
    ext::lemma_add_assoc(a, n, b * r);
    ext::lemma_add_comm(n, b * r);
}

/// Folding and then evaluating at the remaining coordinates is evaluating at all of them.
pub proof fn lemma_mle_fold(v: spec_fn(int) -> EF, point: Seq<EF>)
    requires
        point.len() > 0,
        point.last().canonical(),
        forall|i: int| (#[trigger] v(i)).canonical(),
    ensures
        mle_at(v, point) == mle_at(folded(v, point.last()), point.drop_last()),
{
    let n: nat = pow2((point.len() - 1) as nat);
    let r = point.last();
    let rest = point.drop_last();
    let one = EF::one_spec();
    lemma_pow2_unfold(point.len());
    let f = |i: int| v(i) * eq_weight(point, i);
    sums::lemma_sum_even_odd(n, f);
    let ev = |i: int| f(2 * i);
    let od = |i: int| f(2 * i + 1);
    let g = |j: int| folded(v, r)(j) * eq_weight(rest, j);
    let both = |i: int| ev(i) + od(i);
    sums::lemma_sum_add(n, ev, od);
    assert forall|j: int| 0 <= j < n implies #[trigger] both(j) == g(j) by {
        let w = eq_weight(rest, j);
        lemma_eq_canonical(rest, j);
        assert((2 * j) / 2 == j);
        assert((2 * j + 1) / 2 == j);
        assert(eq_weight(point, 2 * j) == w * (one - r));
        assert(eq_weight(point, 2 * j + 1) == w * r);
        let a = v(2 * j);
        let b = v(2 * j + 1);
        // a (w (1 - r)) + b (w r) == (a (1 - r) + b r) w
        ext::lemma_add_canonical(one, r);
        ext::lemma_mul_comm(w, one - r);
        ext::lemma_mul_assoc(a, one - r, w);
        ext::lemma_mul_comm(w, r);
        ext::lemma_mul_assoc(b, r, w);
        ext::lemma_mul_distrib_left(a * (one - r), b * r, w);
        lemma_line(a, b, r);
    }
    sums::lemma_sum_ext(n, both, g);
}

pub proof fn lemma_eq_canonical(point: Seq<EF>, i: int)
    ensures
        eq_weight(point, i).canonical(),
{
    ext::lemma_constants_canonical();
    if point.len() > 0 {
        ext::lemma_mul_canonical(
            eq_weight(point.drop_last(), i / 2),
            if i % 2 == 1 {
                point.last()
            } else {
                EF::one_spec() - point.last()
            },
        );
    }
}

/// Whether every coordinate of a point is one of two values.
pub open spec fn on_grid(point: Seq<EF>, low: Seq<EF>, high: Seq<EF>) -> bool {
    &&& point.len() == low.len()
    &&& forall|j: int| 0 <= j < low.len() ==> #[trigger] point[j] == low[j] || point[j] == high[j]
}

/// Whether a grid has two values for every coordinate.
pub open spec fn is_grid(low: Seq<EF>, high: Seq<EF>) -> bool {
    &&& low.len() == high.len()
    &&& forall|j: int|
        0 <= j < low.len() ==> (#[trigger] low[j]).canonical() && high[j].canonical() && low[j] != high[j]
}

/// A line that passes zero at two places is zero.
pub proof fn lemma_flat(a: EF, d: EF, x: EF, y: EF)
    requires
        a.canonical(),
        d.canonical(),
        x.canonical(),
        y.canonical(),
        x != y,
        a + x * d == EF::zero_spec(),
        a + y * d == EF::zero_spec(),
    ensures
        a == EF::zero_spec(),
        d == EF::zero_spec(),
{
    let c = seq![a, d];
    let points = seq![x, y];
    let rest = c.drop_first();
    assert(rest =~= seq![d]);
    assert forall|i: int| 0 <= i < 2 implies poly::poly_at(c, #[trigger] points[i]) == EF::zero_spec() by {
        let p = points[i];
        assert(poly::poly_at(rest.drop_first(), p) == EF::zero_spec());
        ext::lemma_mul_zero(p);
        ext::lemma_add_zero(d);
        assert(poly::poly_at(rest, p) == d);
    }
    poly::law_zeros_determine(c, points, 0);
    poly::law_zeros_determine(c, points, 1);
}

/// A multilinear polynomial that vanishes on a grid of two values for each coordinate vanishes on
/// the hypercube.
pub proof fn law_grid_determines(v: spec_fn(int) -> EF, low: Seq<EF>, high: Seq<EF>, i: int)
    requires
        is_grid(low, high),
        forall|i: int| (#[trigger] v(i)).canonical(),
        forall|point: Seq<EF>| on_grid(point, low, high) ==> #[trigger] mle_at(v, point) == EF::zero_spec(),
        0 <= i < pow2(low.len()),
    ensures
        v(i) == EF::zero_spec(),
    decreases low.len(),
{
    let z = EF::zero_spec();
    let n: nat = low.len();
    if n == 0 {
        let point = Seq::<EF>::empty();
        lemma2_to64();
        assert(on_grid(point, low, high));
        let f = |i: int| v(i) * eq_weight(point, i);
        reveal_with_fuel(sums::sum, 2);
        assert(mle_at(v, point) == z + f(0));
        ext::lemma_mul_one(v(0));
        ext::lemma_add_comm(z, v(0));
        ext::lemma_add_zero(v(0));
    } else {
        let j: int = i / 2;
        let (a, b) = (v(2 * j), v(2 * j + 1));
        let (x, y) = (low.last(), high.last());
        assert(low[n - 1] == x && high[n - 1] == y);
        lemma_pow2_unfold(n);
        lemma_slice_vanishes(v, low, high, x);
        lemma_slice_vanishes(v, low, high, y);
        law_grid_determines(folded(v, x), low.drop_last(), high.drop_last(), j);
        law_grid_determines(folded(v, y), low.drop_last(), high.drop_last(), j);
        ext::lemma_add_canonical(b, a);
        lemma_flat(a, b - a, x, y);
        ext::lemma_sub_zero_iff(b, a);
    }
}

/// The polynomial with its lowest variable set to one of its two values vanishes on what is left of
/// the grid.
proof fn lemma_slice_vanishes(v: spec_fn(int) -> EF, low: Seq<EF>, high: Seq<EF>, r: EF)
    requires
        low.len() > 0,
        is_grid(low, high),
        forall|i: int| (#[trigger] v(i)).canonical(),
        forall|point: Seq<EF>| on_grid(point, low, high) ==> #[trigger] mle_at(v, point) == EF::zero_spec(),
        r == low.last() || r == high.last(),
    ensures
        is_grid(low.drop_last(), high.drop_last()),
        forall|i: int| (#[trigger] folded(v, r)(i)).canonical(),
        forall|point: Seq<EF>|
            on_grid(point, low.drop_last(), high.drop_last()) ==> #[trigger] mle_at(folded(v, r), point)
                == EF::zero_spec(),
{
    let (head_low, head_high) = (low.drop_last(), high.drop_last());
    let n: int = low.len() as int;
    assert(low[n - 1].canonical() && high[n - 1].canonical());
    assert forall|j: int| 0 <= j < head_low.len() implies (#[trigger] head_low[j]).canonical() && head_high[
        j
    ].canonical() && head_low[j] != head_high[j] by {
        assert(head_low[j] == low[j] && head_high[j] == high[j]);
    }
    assert forall|i: int| (#[trigger] folded(v, r)(i)).canonical() by {
        ext::lemma_add_canonical(v(2 * i), r * (v(2 * i + 1) - v(2 * i)));
    }
    assert forall|point: Seq<EF>| on_grid(point, head_low, head_high) implies #[trigger] mle_at(folded(v, r), point)
        == EF::zero_spec() by {
        let whole = point.push(r);
        assert forall|j: int| 0 <= j < low.len() implies #[trigger] whole[j] == low[j] || whole[j] == high[j] by {
            if j < n - 1 {
                assert(point[j] == head_low[j] || point[j] == head_high[j]);
            }
        }
        assert(on_grid(whole, low, high));
        assert(whole.drop_last() =~= point);
        lemma_mle_fold(v, whole);
    }
}

/// The sum of the weights of the indices from `n` on.
pub open spec fn ones_from(point: Seq<EF>, n: int) -> EF {
    sums::sum(
        pow2(point.len()),
        |i: int|
            if i < n {
                EF::zero_spec()
            } else {
                eq_weight(point, i)
            },
    )
}

/// The weight of index `i` at the first `len` coordinates of `point`.
fn eq_at(point: &Vec<EF>, len: usize, i: usize) -> (r: EF)
    requires
        len <= point@.len(),
    ensures
        r == eq_weight(point@.subrange(0, len as int), i as int),
    decreases len,
{
    if len == 0 {
        EF::one()
    } else {
        let rest = eq_at(point, len - 1, i / 2);
        proof {
            let p = point@.subrange(0, len as int);
            assert(p.drop_last() =~= point@.subrange(0, len - 1));
        }
        let last = point[len - 1];
        if i % 2 == 1 {
            rest.mul(last)
        } else {
            rest.mul(EF::one().sub(last))
        }
    }
}

/// The weights from `n` on, with the last coordinate taken off.
proof fn lemma_ones_step(point: Seq<EF>, n: int)
    requires
        point.len() > 0,
        point.last().canonical(),
        0 <= n <= pow2(point.len()),
    ensures
        n % 2 == 0 ==> ones_from(point, n) == ones_from(point.drop_last(), n / 2),
        n % 2 == 1 ==> ones_from(point, n) == ones_from(point.drop_last(), n / 2 + 1) + eq_weight(
            point.drop_last(),
            n / 2,
        ) * point.last(),
{
    let z = EF::zero_spec();
    let one = EF::one_spec();
    let rest = point.drop_last();
    let last = point.last();
    let m: nat = pow2(rest.len());
    lemma_pow2_unfold(point.len());
    let h: int = n / 2;
    let f = |i: int| if i < n { z } else { eq_weight(point, i) };
    sums::lemma_sum_even_odd(m, f);
    let ev = |y: int| f(2 * y);
    let od = |y: int| f(2 * y + 1);
    let both = |y: int| ev(y) + od(y);
    sums::lemma_sum_add(m, ev, od);
    let up: int = if n % 2 == 0 {
        h
    } else {
        h + 1
    };
    let g = |y: int| if y < up { z } else { eq_weight(rest, y) };
    let single = |y: int| if n % 2 == 1 && y == h { eq_weight(rest, h) * last } else { z };
    let target = |y: int| g(y) + single(y);
    assert forall|y: int| 0 <= y < m implies #[trigger] both(y) == target(y) by {
        let w = eq_weight(rest, y);
        lemma_eq_canonical(rest, y);
        assert((2 * y) / 2 == y && (2 * y) % 2 == 0);
        assert((2 * y + 1) / 2 == y && (2 * y + 1) % 2 == 1);
        assert(eq_weight(point, 2 * y) == w * (one - last));
        assert(eq_weight(point, 2 * y + 1) == w * last);
        ext::lemma_constants_canonical();
        ext::lemma_add_zero(z);
        ext::lemma_mul_canonical(w, last);
        ext::lemma_add_zero(w * last);
        ext::lemma_add_comm(z, w * last);
        // w (1 - last) + w last == w
        ext::lemma_mul_distrib_right(w, one - last, last);
        ext::lemma_sub_add_cancel(one, last);
        ext::lemma_mul_one(w);
        ext::lemma_add_zero(w);
    }
    sums::lemma_sum_ext(m, both, target);
    sums::lemma_sum_add(m, g, single);
    sums::lemma_sum_canonical(m, g);
    ext::lemma_add_zero(sums::sum(m, g));
    if n % 2 == 1 {
        ext::lemma_mul_canonical(eq_weight(rest, h), last);
        sums::lemma_sum_single(m, h, single);
    } else {
        sums::lemma_sum_zero(m, single);
    }
}

/// The value at `point` of the multilinear polynomial that is zero at the first `n_zeros` indices and
/// one at the others.
pub fn mle_of_zeros_then_ones(n_zeros: usize, point: &Vec<EF>) -> (r: EF)
    requires
        n_zeros <= pow2(point@.len()),
    ensures
        r == ones_from(point@, n_zeros as int),
{
    let mut acc = EF::zero();
    let mut n: usize = n_zeros;
    let mut len: usize = point.len();
    proof {
        assert(point@.subrange(0, len as int) =~= point@);
        sums::lemma_sum_canonical(
            pow2(point@.len()),
            |i: int| if i < n { EF::zero_spec() } else { eq_weight(point@, i) },
        );
        ext::lemma_add_zero(ones_from(point@, n as int));
        ext::lemma_add_comm(EF::zero_spec(), ones_from(point@, n as int));
    }
    while len > 0
        invariant
            len <= point@.len(),
            n <= pow2(len as nat),
            ones_from(point@, n_zeros as int) == acc + ones_from(point@.subrange(0, len as int), n as int),
        decreases len,
    {
        let last = point[len - 1];
        last.assert_canonical();
        let ghost p = point@.subrange(0, len as int);
        let ghost rest = point@.subrange(0, len - 1);
        proof {
            assert(p.drop_last() =~= rest);
            lemma_ones_step(p, n as int);
            lemma_pow2_unfold(len as nat);
        }
        if n % 2 == 1 {
            let term = eq_at(point, len - 1, n / 2).mul(last);
            proof {
                // acc + (s + term) == (acc + term) + s
                let s = ones_from(rest, n as int / 2 + 1);
                ext::lemma_add_comm(s, term);
                ext::lemma_add_assoc(acc, term, s);
            }
            acc = acc.add(term);
            n = n / 2 + 1;
        } else {
            n = n / 2;
        }
        len = len - 1;
    }
    proof {
        lemma2_to64();
        let p = point@.subrange(0, 0);
        let f = |i: int| if i < n { EF::zero_spec() } else { eq_weight(p, i) };
        assert(sums::sum(1, f) == sums::sum(0, f) + f(0));
        ext::lemma_constants_canonical();
        ext::lemma_add_zero(EF::zero_spec());
        ext::lemma_add_zero(EF::one_spec());
        ext::lemma_add_comm(EF::zero_spec(), EF::one_spec());
    }
    if n == 0 {
        acc.add(EF::one())
    } else {
        acc.add(EF::zero())
    }
}

/// A copy of a point.
pub fn copied(point: &Vec<EF>) -> (r: Vec<EF>)
    ensures
        r@ == point@,
{
    let mut out: Vec<EF> = Vec::new();
    let mut i: usize = 0;
    while i < point.len()
        invariant
            i <= point@.len(),
            out@ == point@.subrange(0, i as int),
        decreases point@.len() - i,
    {
        out.push(point[i]);
        i = i + 1;
        assert(out@ =~= point@.subrange(0, i as int));
    }
    assert(point@.subrange(0, point@.len() as int) =~= point@);
    out
}

/// The equality polynomial of two points: the product, over the coordinates, of
/// `(1 - a)(1 - b) + a b`.
pub open spec fn eq_poly(a: Seq<EF>, b: Seq<EF>) -> EF
    decreases a.len(),
{
    if a.len() == 0 {
        EF::one_spec()
    } else {
        let x = a.last();
        let y = b.last();
        eq_poly(a.drop_last(), b.drop_last()) * ((EF::one_spec() - x) * (EF::one_spec() - y) + x * y)
    }
}

pub proof fn lemma_eq_poly_canonical(a: Seq<EF>, b: Seq<EF>)
    ensures
        eq_poly(a, b).canonical(),
{
    ext::lemma_constants_canonical();
    if a.len() > 0 {
        let x = a.last();
        let y = b.last();
        ext::lemma_mul_canonical(
            eq_poly(a.drop_last(), b.drop_last()),
            (EF::one_spec() - x) * (EF::one_spec() - y) + x * y,
        );
    }
}

/// The equality polynomial of two points.
pub fn eq_poly_outside(a: &Vec<EF>, b: &Vec<EF>) -> (r: EF)
    requires
        a@.len() == b@.len(),
    ensures
        r == eq_poly(a@, b@),
{
    let mut acc = EF::one();
    let mut i: usize = 0;
    while i < a.len()
        invariant
            i <= a@.len(),
            a@.len() == b@.len(),
            acc == eq_poly(a@.subrange(0, i as int), b@.subrange(0, i as int)),
        decreases a@.len() - i,
    {
        let x = a[i];
        let y = b[i];
        proof {
            assert(a@.subrange(0, i + 1).drop_last() =~= a@.subrange(0, i as int));
            assert(b@.subrange(0, i + 1).drop_last() =~= b@.subrange(0, i as int));
        }
        acc = acc.mul(EF::one().sub(x).mul(EF::one().sub(y)).add(x.mul(y)));
        i = i + 1;
    }
    assert(a@.subrange(0, a@.len() as int) =~= a@);
    assert(b@.subrange(0, b@.len() as int) =~= b@);
    acc
}

/// `1, base, base^2, ...`, `len` of them.
pub fn powers(base: EF, len: usize) -> (r: Vec<EF>)
    ensures
        r@.len() == len,
        forall|i: int| 0 <= i < len ==> #[trigger] r@[i] == base.pow(i as nat),
{
    let mut out: Vec<EF> = Vec::new();
    let mut current = EF::one();
    let mut i: usize = 0;
    while i < len
        invariant
            i <= len,
            out@.len() == i,
            current == base.pow(i as nat),
            forall|m: int| 0 <= m < i ==> #[trigger] out@[m] == base.pow(m as nat),
        decreases len - i,
    {
        out.push(current);
        current = current.mul(base);
        i = i + 1;
    }
    out
}

/// The corner of the hypercube with the given digits.
pub open spec fn corner(digits: Seq<bool>) -> Seq<EF> {
    Seq::new(
        digits.len(),
        |j: int|
            if digits[j] {
                EF::one_spec()
            } else {
                EF::zero_spec()
            },
    )
}

/// The number with the given binary digits, the highest first.
pub open spec fn number(digits: Seq<bool>) -> nat
    decreases digits.len(),
{
    if digits.len() == 0 {
        0
    } else {
        (if digits[0] {
            pow2((digits.len() - 1) as nat)
        } else {
            0
        }) + number(digits.drop_first())
    }
}

proof fn lemma_number_last(digits: Seq<bool>)
    requires
        digits.len() > 0,
    ensures
        number(digits) == 2 * number(digits.drop_last()) + if digits.last() {
            1nat
        } else {
            0nat
        },
    decreases digits.len(),
{
    lemma2_to64();
    let rest = digits.drop_first();
    if digits.len() == 1 {
        assert(number(rest) == 0);
        assert(number(digits.drop_last()) == 0);
    } else {
        lemma_number_last(rest);
        let front = digits.drop_last();
        assert(rest.drop_last() =~= front.drop_first());
        assert(rest.last() == digits.last());
        assert(front[0] == digits[0]);
        lemma_pow2_unfold((digits.len() - 1) as nat);
    }
}

/// Folding at zero keeps the even places, and at one the odd ones.
proof fn lemma_fold_at_corner(v: spec_fn(int) -> EF, j: int)
    requires
        forall|i: int| (#[trigger] v(i)).canonical(),
    ensures
        folded(v, EF::zero_spec())(j) == v(2 * j),
        folded(v, EF::one_spec())(j) == v(2 * j + 1),
{
    let (a, b) = (v(2 * j), v(2 * j + 1));
    ext::lemma_mul_zero(b - a);
    ext::lemma_add_zero(a);
    ext::lemma_sub_add_cancel(b, a);
    ext::lemma_add_canonical(b, a);
    ext::lemma_mul_one(b - a);
    ext::lemma_add_comm(a, b - a);
}

/// At a corner a multilinear polynomial takes the value of the number with the digits of the corner, of
/// which the first coordinate is the highest.
pub proof fn law_value_at_corner(v: spec_fn(int) -> EF, digits: Seq<bool>)
    requires
        forall|i: int| (#[trigger] v(i)).canonical(),
    ensures
        mle_at(v, corner(digits)) == v(number(digits) as int),
    decreases digits.len(),
{
    let point = corner(digits);
    ext::lemma_constants_canonical();
    if digits.len() == 0 {
        lemma2_to64();
        let f = |i: int| v(i) * eq_weight(point, i);
        ext::lemma_mul_one(v(0));
        assert(sums::sum(0, f) == EF::zero_spec());
        ext::lemma_add_zero(v(0));
        ext::lemma_add_comm(EF::zero_spec(), v(0));
        assert(sums::sum(1, f) == v(0));
    } else {
        let front = digits.drop_last();
        assert(point.drop_last() =~= corner(front));
        lemma_mle_fold(v, point);
        let w = folded(v, point.last());
        assert forall|i: int| (#[trigger] w(i)).canonical() by {
            lemma_fold_at_corner(v, i);
        }
        law_value_at_corner(w, front);
        lemma_fold_at_corner(v, number(front) as int);
        lemma_number_last(digits);
    }
}

/// The weights of a point at a corner: the equality polynomial is one factor for every coordinate, and at
/// the corner with the digits of a number it is the weight of that number.
pub proof fn law_equality_at_corner(point: Seq<EF>, digits: Seq<bool>)
    requires
        point.len() == digits.len(),
        forall|j: int| 0 <= j < point.len() ==> (#[trigger] point[j]).canonical(),
    ensures
        eq_poly(point, corner(digits)) == eq_weight(point, number(digits) as int),
    decreases digits.len(),
{
    ext::lemma_constants_canonical();
    if digits.len() > 0 {
        let front = digits.drop_last();
        let b = corner(digits);
        assert(b.drop_last() =~= corner(front));
        assert forall|j: int| 0 <= j < point.drop_last().len() implies (#[trigger] point.drop_last()[j]).canonical() by {
            assert(point[j].canonical());
        }
        law_equality_at_corner(point.drop_last(), front);
        lemma_number_last(digits);
        let n: int = number(digits) as int;
        assert(n / 2 == number(front));
        let (one, zero) = (EF::one_spec(), EF::zero_spec());
        let x = point.last();
        assert(point[point.len() - 1].canonical());
        ext::lemma_add_canonical(one, x);
        if digits.last() {
            ext::lemma_sub_self(one);
            ext::lemma_mul_zero(one - x);
            ext::lemma_mul_one(x);
            ext::lemma_add_zero(x);
            ext::lemma_add_comm(zero, x);
            assert((one - x) * (one - one) + x * one == x);
        } else {
            lemma_one_minus_zero();
            ext::lemma_mul_one(one - x);
            ext::lemma_mul_zero(x);
            ext::lemma_add_zero(one - x);
            assert((one - x) * (one - zero) + x * zero == one - x);
        }
    }
}

proof fn lemma_one_minus_zero()
    ensures
        EF::one_spec() - EF::zero_spec() == EF::one_spec(),
{
    let (one, zero) = (EF::one_spec(), EF::zero_spec());
    ext::lemma_constants_canonical();
    ext::lemma_sub_add_cancel(one, zero);
    ext::lemma_add_canonical(one, zero);
    ext::lemma_add_zero(one - zero);
}

/// The weights from an index on add up to the value of the polynomial that is one from there on.
pub proof fn law_ones_from_is_step(point: Seq<EF>, n: int)
    ensures
        ones_from(point, n) == mle_at(
            |i: int|
                if i >= n {
                    EF::one_spec()
                } else {
                    EF::zero_spec()
                },
            point,
        ),
{
    let step = |i: int|
        if i >= n {
            EF::one_spec()
        } else {
            EF::zero_spec()
        };
    let f = |i: int|
        if i < n {
            EF::zero_spec()
        } else {
            eq_weight(point, i)
        };
    let g = |i: int| step(i) * eq_weight(point, i);
    assert forall|i: int| 0 <= i < pow2(point.len()) implies #[trigger] f(i) == g(i) by {
        lemma_eq_canonical(point, i);
        ext::lemma_mul_one(eq_weight(point, i));
        ext::lemma_mul_zero(eq_weight(point, i));
    }
    sums::lemma_sum_ext(pow2(point.len()), f, g);
}

} // verus!
