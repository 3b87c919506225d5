//! Finite sums in the extension field.
use crate::ext;
use crate::ext::EF;
use crate::field::F;
use vstd::prelude::*;

verus! {

/// `f(0) + ... + f(n - 1)`.
pub open spec fn sum(n: nat, f: spec_fn(int) -> EF) -> EF
    decreases n,
{
    if n == 0 {
        EF::zero_spec()
    } else {
        sum((n - 1) as nat, f) + f(n - 1)
    }
}

pub proof fn lemma_sum_canonical(n: nat, f: spec_fn(int) -> EF)
    ensures
        sum(n, f).canonical(),
{
    ext::lemma_constants_canonical();
    if n > 0 {
        ext::lemma_add_canonical(sum((n - 1) as nat, f), f(n - 1));
    }
}

/// Sums of equal terms are equal.
pub proof fn lemma_sum_ext(n: nat, f: spec_fn(int) -> EF, g: spec_fn(int) -> EF)
    requires
        forall|i: int| 0 <= i < n ==> #[trigger] f(i) == g(i),
    ensures
        sum(n, f) == sum(n, g),
    decreases n,
{
    if n > 0 {
        lemma_sum_ext((n - 1) as nat, f, g);
        assert(f(n - 1) == g(n - 1));
    }
}

pub proof fn lemma_sum_zero(n: nat, f: spec_fn(int) -> EF)
    requires
        forall|i: int| 0 <= i < n ==> #[trigger] f(i) == EF::zero_spec(),
    ensures
        sum(n, f) == EF::zero_spec(),
    decreases n,
{
    ext::lemma_constants_canonical();
    if n > 0 {
        lemma_sum_zero((n - 1) as nat, f);
        assert(f(n - 1) == EF::zero_spec());
        ext::lemma_add_zero(EF::zero_spec());
    }
}

pub proof fn lemma_sum_add(n: nat, f: spec_fn(int) -> EF, g: spec_fn(int) -> EF)
    ensures
        sum(n, |i: int| f(i) + g(i)) == sum(n, f) + sum(n, g),
    decreases n,
{
    let h = |i: int| f(i) + g(i);
    if n == 0 {
        ext::lemma_constants_canonical();
        ext::lemma_add_zero(EF::zero_spec());
    } else {
        let m: nat = (n - 1) as nat;
        lemma_sum_add(m, f, g);
        ext::lemma_add_exchange(sum(m, f), sum(m, g), f(n - 1), g(n - 1));
    }
}

pub proof fn lemma_sum_sub(n: nat, f: spec_fn(int) -> EF, g: spec_fn(int) -> EF)
    ensures
        sum(n, |i: int| f(i) - g(i)) == sum(n, f) - sum(n, g),
    decreases n,
{
    if n == 0 {
        ext::lemma_sub_self(EF::zero_spec());
    } else {
        let m: nat = (n - 1) as nat;
        lemma_sum_sub(m, f, g);
        ext::lemma_sub_exchange(sum(m, f), f(n - 1), sum(m, g), g(n - 1));
    }
}

pub proof fn lemma_sum_mul_left(c: EF, n: nat, f: spec_fn(int) -> EF)
    ensures
        sum(n, |i: int| c * f(i)) == c * sum(n, f),
    decreases n,
{
    if n == 0 {
        ext::lemma_mul_zero(c);
    } else {
        lemma_sum_mul_left(c, (n - 1) as nat, f);
        ext::lemma_mul_distrib_right(c, sum((n - 1) as nat, f), f(n - 1));
    }
}

pub proof fn lemma_sum_mul_right(n: nat, f: spec_fn(int) -> EF, c: EF)
    ensures
        sum(n, |i: int| f(i) * c) == sum(n, f) * c,
    decreases n,
{
    if n == 0 {
        ext::lemma_mul_zero(c);
    } else {
        lemma_sum_mul_right((n - 1) as nat, f, c);
        ext::lemma_mul_distrib_left(sum((n - 1) as nat, f), f(n - 1), c);
    }
}

pub proof fn lemma_sum_scale(n: nat, f: spec_fn(int) -> EF, k: F)
    ensures
        sum(n, |i: int| f(i).scale_spec(k)) == sum(n, f).scale_spec(k),
    decreases n,
{
    if n == 0 {
        ext::lemma_scale_zero(EF::zero_spec());
        assert(EF::zero_spec().scale_spec(k) == EF::zero_spec());
    } else {
        lemma_sum_scale((n - 1) as nat, f, k);
        ext::lemma_scale_add(sum((n - 1) as nat, f), f(n - 1), k);
    }
}

/// A sum cut in two.
pub proof fn lemma_sum_split(m: nat, n: nat, f: spec_fn(int) -> EF)
    ensures
        sum(m + n, f) == sum(m, f) + sum(n, |i: int| f(m + i)),
    decreases n,
{
    let g = |i: int| f(m + i);
    if n == 0 {
        lemma_sum_canonical(m, f);
        ext::lemma_add_zero(sum(m, f));
    } else {
        let k: nat = (n - 1) as nat;
        lemma_sum_split(m, k, f);
        assert((m + n - 1) as nat == m + k);
        assert(g(n - 1) == f(m + n - 1));
        ext::lemma_add_assoc(sum(m, f), sum(k, g), g(n - 1));
    }
}

/// The first term taken out of a sum.
pub proof fn lemma_sum_first(n: nat, f: spec_fn(int) -> EF)
    requires
        n > 0,
        f(0).canonical(),
    ensures
        sum(n, f) == f(0) + sum((n - 1) as nat, |i: int| f(1 + i)),
{
    lemma_sum_split(1, (n - 1) as nat, f);
    assert(sum(1, f) == sum(0, f) + f(0));
    ext::lemma_add_zero(f(0));
    lemma_sum_ext((n - 1) as nat, |i: int| f(1nat + i), |i: int| f(1 + i));
}

/// The order of two summations does not matter.
pub proof fn lemma_sum_swap(m: nat, n: nat, f: spec_fn(int, int) -> EF)
    ensures
        sum(m, |i: int| sum(n, |j: int| f(i, j))) == sum(n, |j: int| sum(m, |i: int| f(i, j))),
    decreases m,
{
    let rows = |i: int| sum(n, |j: int| f(i, j));
    let cols = |j: int| sum(m, |i: int| f(i, j));
    if m == 0 {
        lemma_sum_zero(n, cols);
    } else {
        let k: nat = (m - 1) as nat;
        lemma_sum_swap(k, n, f);
        let below = |j: int| sum(k, |i: int| f(i, j));
        let last = |j: int| f(k as int, j);
        lemma_sum_add(n, below, last);
        assert forall|j: int| 0 <= j < n implies #[trigger] cols(j) == (|j: int| below(j) + last(j))(j) by {
            assert(sum(m, |i: int| f(i, j)) == sum(k, |i: int| f(i, j)) + f(m - 1, j));
        }
        lemma_sum_ext(n, cols, |j: int| below(j) + last(j));
    }
}

/// A sum with one term that is not zero.
pub proof fn lemma_sum_single(n: nat, k: int, f: spec_fn(int) -> EF)
    requires
        0 <= k < n,
        f(k).canonical(),
        forall|i: int| 0 <= i < n && i != k ==> #[trigger] f(i) == EF::zero_spec(),
    ensures
        sum(n, f) == f(k),
    decreases n,
{
    ext::lemma_constants_canonical();
    let m: nat = (n - 1) as nat;
    if k == n - 1 {
        lemma_sum_zero(m, f);
        ext::lemma_add_zero(f(k));
    } else {
        lemma_sum_single(m, k, f);
        assert(f(n - 1) == EF::zero_spec());
        ext::lemma_add_zero(f(k));
    }
}

/// A sum over `m` blocks of `n` terms each.
pub proof fn lemma_sum_blocks(m: nat, n: nat, f: spec_fn(int) -> EF)
    ensures
        sum(m * n, f) == sum(m, |i: int| sum(n, |j: int| f(i * n + j))),
    decreases m,
{
    let g = |i: int| sum(n, |j: int| f(i * n + j));
    if m == 0 {
        assert(m * n == 0) by (nonlinear_arith)
            requires
                m == 0,
        ;
    } else {
        let k: nat = (m - 1) as nat;
        lemma_sum_blocks(k, n, f);
        assert(m * n == k * n + n) by (nonlinear_arith)
            requires
                m == k + 1,
        ;
        lemma_sum_split(k * n, n, f);
        lemma_sum_ext(n, |j: int| f(k * n + j), |j: int| f((m - 1) * n + j));
    }
}

/// Even and odd terms of a sum taken apart.
pub proof fn lemma_sum_even_odd(n: nat, f: spec_fn(int) -> EF)
    ensures
        sum(2 * n, f) == sum(n, |i: int| f(2 * i)) + sum(n, |i: int| f(2 * i + 1)),
    decreases n,
{
    let ev = |i: int| f(2 * i);
    let od = |i: int| f(2 * i + 1);
    if n == 0 {
        ext::lemma_constants_canonical();
        ext::lemma_add_zero(EF::zero_spec());
    } else {
        let m: nat = (n - 1) as nat;
        lemma_sum_even_odd(m, f);
        reveal_with_fuel(sum, 3);
        assert(sum(2 * n, f) == sum(2 * m, f) + f(2 * m as int) + f(2 * m as int + 1));
        assert(ev(n - 1) == f(2 * m as int));
        assert(od(n - 1) == f(2 * m as int + 1));
        ext::lemma_add_assoc(sum(2 * m, f), ev(n - 1), od(n - 1));
        ext::lemma_add_exchange(sum(m, ev), sum(m, od), ev(n - 1), od(n - 1));
    }
}

/// Weights gathered by their places, then summed against `e`: the sum of the weights against `e`
/// at their places. A negative place stands for no place.
pub proof fn lemma_sum_gather(n: nat, place: spec_fn(int) -> int, w: spec_fn(int) -> EF, r: nat, e: spec_fn(int) -> EF)
    requires
        forall|i: int| 0 <= i < n ==> #[trigger] place(i) < r,
    ensures
        sum(r, |y: int| sum(n, |i: int| if place(i) == y { w(i) } else { EF::zero_spec() }) * e(y)) == sum(
            n,
            |i: int| if place(i) >= 0 { w(i) * e(place(i)) } else { EF::zero_spec() },
        ),
{
    let z = EF::zero_spec();
    let cell = |i: int, y: int| if place(i) == y { w(i) } else { z };
    let prod = |y: int, i: int| cell(i, y) * e(y);
    let lhs = |y: int| sum(n, |i: int| if place(i) == y { w(i) } else { z }) * e(y);
    let mid = |y: int| sum(n, |i: int| prod(y, i));
    assert forall|y: int| 0 <= y < r implies #[trigger] lhs(y) == mid(y) by {
        let f = |i: int| if place(i) == y { w(i) } else { z };
        lemma_sum_mul_right(n, f, e(y));
        lemma_sum_ext(n, |i: int| f(i) * e(y), |i: int| prod(y, i));
    }
    lemma_sum_ext(r, lhs, mid);
    lemma_sum_swap(r, n, prod);
    let swapped = |i: int| sum(r, |y: int| prod(y, i));
    let rhs = |i: int| if place(i) >= 0 { w(i) * e(place(i)) } else { z };
    assert forall|i: int| 0 <= i < n implies #[trigger] swapped(i) == rhs(i) by {
        let g = |y: int| prod(y, i);
        let p: int = place(i);
        assert forall|y: int| 0 <= y < r && y != p implies #[trigger] g(y) == z by {
            ext::lemma_mul_zero(e(y));
        }
        if p >= 0 {
            ext::lemma_mul_canonical(w(i), e(p));
            assert(g(p) == w(i) * e(p));
            lemma_sum_single(r, p, g);
        } else {
            lemma_sum_zero(r, g);
        }
    }
    lemma_sum_ext(n, swapped, rhs);
}

/// A sum over a longer range in which the terms outside the shorter one are zero.
pub proof fn lemma_sum_window(start: nat, len: nat, n: nat, f: spec_fn(int) -> EF)
    requires
        start + len <= n,
        forall|i: int| 0 <= i < n && !(start <= i < start + len) ==> #[trigger] f(i) == EF::zero_spec(),
    ensures
        sum(n, f) == sum(len, |i: int| f(start + i)),
{
    let rest: nat = (n - start - len) as nat;
    let g = |i: int| f(start + i);
    lemma_sum_split(start, len + rest, f);
    lemma_sum_ext(len + rest, |i: int| f(start as nat + i), g);
    lemma_sum_split(len, rest, g);
    let h = |i: int| g(len + i);
    assert forall|i: int| 0 <= i < rest implies #[trigger] h(i) == EF::zero_spec() by {
        assert(f(start + (len + i)) == EF::zero_spec());
    }
    lemma_sum_zero(rest, |i: int| g(len as nat + i));
    lemma_sum_zero(start, f);
    lemma_sum_canonical(len, g);
    ext::lemma_add_zero(sum(len, g));
    assert(start + (len + rest) == n);
}

} // verus!
