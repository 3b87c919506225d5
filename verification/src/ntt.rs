//! Evaluation of polynomials on the subgroups of two-power order, and the code built on it.
use crate::arith;
use crate::ext;
use crate::ext::EF;
use crate::field;
use crate::field::{F, TWO_ADICITY};
use crate::sums;
use crate::units;
use vstd::arithmetic::div_mod::*;
use vstd::arithmetic::mul::*;
use vstd::arithmetic::power2::*;
use vstd::prelude::*;

verus! {

/// The value at `x` of the polynomial with coefficients `f(0), ..., f(n - 1)`.
pub open spec fn eval(n: nat, f: spec_fn(int) -> EF, x: F) -> EF {
    sums::sum(n, |j: int| f(j).scale_spec(x.pow(j as nat)))
}

/// The number whose `bits` binary digits are those of `i` in reverse order.
pub open spec fn reversed(bits: nat, i: nat) -> nat
    decreases bits,
{
    if bits == 0 {
        0
    } else {
        reversed((bits - 1) as nat, i / 2) + (i % 2) * pow2((bits - 1) as nat)
    }
}

pub proof fn lemma_reversed_bound(bits: nat, i: nat)
    ensures
        reversed(bits, i) < pow2(bits),
    decreases bits,
{
    lemma2_to64();
    if bits > 0 {
        let b: nat = (bits - 1) as nat;
        lemma_reversed_bound(b, i / 2);
        lemma_pow2_unfold(bits);
        assert((i % 2) * pow2(b) <= pow2(b)) by (nonlinear_arith)
            requires
                i % 2 <= 1,
        ;
    }
}

/// The digit at the top of the argument becomes the lowest digit of the result.
pub proof fn lemma_reversed_top(bits: nat, d: nat, i: nat)
    requires
        d < 2,
        i < pow2(bits),
    ensures
        reversed(bits + 1, d * pow2(bits) + i) == 2 * reversed(bits, i) + d,
    decreases bits,
{
    lemma2_to64();
    let x: nat = d * pow2(bits) + i;
    if bits == 0 {
        assert(d * 1 == d);
        assert(x == d);
        reveal_with_fuel(reversed, 2);
    } else {
        let b: nat = (bits - 1) as nat;
        lemma_pow2_unfold(bits);
        assert(x == 2 * (d * pow2(b)) + i) by (nonlinear_arith)
            requires
                x == d * pow2(bits) + i,
                pow2(bits) == 2 * pow2(b),
        ;
        assert(x / 2 == d * pow2(b) + i / 2);
        assert(x % 2 == i % 2);
        lemma_reversed_top(b, d, i / 2);
        assert((i % 2) * pow2(bits) == 2 * ((i % 2) * pow2(b))) by (nonlinear_arith)
            requires
                pow2(bits) == 2 * pow2(b),
        ;
        assert(reversed(bits + 1, x) == reversed(bits, x / 2) + (x % 2) * pow2(bits));
    }
}

/// Reversing twice gives the number back.
pub proof fn lemma_reversed_twice(bits: nat, i: nat)
    requires
        i < pow2(bits),
    ensures
        reversed(bits, reversed(bits, i)) == i,
    decreases bits,
{
    lemma2_to64();
    if bits > 0 {
        let b: nat = (bits - 1) as nat;
        lemma_pow2_unfold(bits);
        lemma_reversed_twice(b, i / 2);
        lemma_reversed_bound(b, i / 2);
        let r: nat = reversed(b, i / 2);
        assert(reversed(bits, i) == (i % 2) * pow2(b) + r);
        lemma_reversed_top(b, i % 2, r);
        assert(b + 1 == bits);
    }
}

/// The number whose `bits` binary digits are those of `i` in reverse order.
pub fn reverse_bits(bits: usize, i: usize) -> (r: usize)
    requires
        i < pow2(bits as nat) <= usize::MAX,
    ensures
        r == reversed(bits as nat, i as nat),
        r < pow2(bits as nat),
{
    let mut r: usize = 0;
    let mut x: usize = i;
    let mut k: usize = 0;
    proof {
        assert(0 * pow2(bits as nat) == 0);
    }
    while k < bits
        invariant
            k <= bits,
            pow2(bits as nat) <= usize::MAX,
            reversed(bits as nat, i as nat) == r * pow2((bits - k) as nat) + reversed((bits - k) as nat, x as nat),
        decreases bits - k,
    {
        proof {
            let h: nat = (bits - k - 1) as nat;
            lemma_pow2_unfold((bits - k) as nat);
            lemma_reversed_bound(bits as nat, i as nat);
            lemma_pow2_pos(h);
            let d: int = x as int % 2;
            assert(r * pow2((bits - k) as nat) + d * pow2(h) == (2 * r + d) * pow2(h)) by (nonlinear_arith)
                requires
                    pow2((bits - k) as nat) == 2 * pow2(h),
            ;
            assert(2 * r + d <= (2 * r + d) * pow2(h)) by (nonlinear_arith)
                requires
                    pow2(h) >= 1,
                    r >= 0,
                    d >= 0,
            ;
        }
        r = 2 * r + x % 2;
        x = x / 2;
        k = k + 1;
    }
    proof {
        lemma2_to64();
        assert(r * 1 == r);
        lemma_reversed_bound(bits as nat, i as nat);
    }
    r
}

/// Every run-time value is canonical; nothing happens when this runs.
pub fn known_canonical(values: &Vec<EF>)
    ensures
        forall|i: int| 0 <= i < values@.len() ==> (#[trigger] values@[i]).canonical(),
{
    let mut i: usize = 0;
    while i < values.len()
        invariant
            i <= values@.len(),
            forall|k: int| 0 <= k < i ==> (#[trigger] values@[k]).canonical(),
        decreases values@.len() - i,
    {
        values[i].assert_canonical();
        i = i + 1;
    }
}

/// Puts the values in the order of their reversed indices.
fn reverse_order(a: &mut Vec<EF>, bits: usize)
    requires
        old(a)@.len() == pow2(bits as nat),
    ensures
        final(a)@.len() == old(a)@.len(),
        forall|k: int|
            0 <= k < old(a)@.len() ==> #[trigger] final(a)@[k] == old(a)@[reversed(bits as nat, k as nat) as int],
{
    let n: usize = a.len();
    let ghost b: nat = bits as nat;
    let ghost a0 = a@;
    let mut i: usize = 0;
    while i < n
        invariant
            i <= n,
            n == pow2(b),
            b == bits,
            a@.len() == n,
            a0.len() == n,
            forall|k: int|
                0 <= k < n ==> #[trigger] a@[k] == (if k < i || reversed(b, k as nat) < i {
                    a0[reversed(b, k as nat) as int]
                } else {
                    a0[k]
                }),
        decreases n - i,
    {
        let j: usize = reverse_bits(bits, i);
        let ghost before = a@;
        proof {
            lemma_reversed_twice(b, i as nat);
        }
        if i < j {
            let x = a[i];
            let y = a[j];
            a.set(i, y);
            a.set(j, x);
        }
        proof {
            assert forall|k: int| 0 <= k < n implies #[trigger] a@[k] == (if k < i + 1 || reversed(b, k as nat) < i + 1 {
                a0[reversed(b, k as nat) as int]
            } else {
                a0[k]
            }) by {
                lemma_reversed_twice(b, k as nat);
                lemma_reversed_bound(b, k as nat);
                assert(before[k] == (if k < i || reversed(b, k as nat) < i {
                    a0[reversed(b, k as nat) as int]
                } else {
                    a0[k]
                }));
                assert(before[i as int] == (if reversed(b, i as nat) < i { a0[j as int] } else { a0[i as int] }));
                assert(before[j as int] == (if j < i || i < i { a0[i as int] } else { a0[j as int] }));
            }
        }
        i = i + 1;
    }
    proof {
        assert forall|k: int| 0 <= k < a0.len() implies #[trigger] a@[k] == a0[reversed(b, k as nat) as int] by {}
    }
}

/// The coefficients that block `c` of size `2^t` of a transform of size `2^l` stands for.
spec fn block(a: Seq<EF>, l: nat, t: nat, c: int) -> spec_fn(int) -> EF {
    |j: int| a[j * pow2((l - t) as nat) + reversed((l - t) as nat, c as nat)]
}

/// A sum over twice as many coefficients from the sums over the even and over the odd ones.
proof fn lemma_eval_merge(s: nat, f: spec_fn(int) -> EF, x: F)
    ensures
        eval(2 * s, f, x) == eval(s, |j: int| f(2 * j), x * x) + eval(s, |j: int| f(2 * j + 1), x * x).scale_spec(x),
{
    let g = |j: int| f(j).scale_spec(x.pow(j as nat));
    let ev = |j: int| f(2 * j);
    let od = |j: int| f(2 * j + 1);
    let gev = |j: int| ev(j).scale_spec((x * x).pow(j as nat));
    let god = |j: int| od(j).scale_spec((x * x).pow(j as nat));
    sums::lemma_sum_even_odd(s, g);
    let ge = |j: int| g(2 * j);
    let go = |j: int| g(2 * j + 1);
    assert forall|j: int| 0 <= j < s implies #[trigger] ge(j) == gev(j) by {
        lemma_pow_square(x, j as nat);
    }
    sums::lemma_sum_ext(s, ge, gev);
    assert forall|j: int| 0 <= j < s implies #[trigger] go(j) == (|j: int| god(j).scale_spec(x))(j) by {
        lemma_pow_square(x, j as nat);
        let p = (x * x).pow(j as nat);
        assert(x.pow((2 * j + 1) as nat) == x.pow((2 * j) as nat) * x);
        ext::lemma_scale_scale(od(j), p, x);
    }
    sums::lemma_sum_ext(s, go, |j: int| god(j).scale_spec(x));
    sums::lemma_sum_scale(s, god, x);
}

proof fn lemma_pow_square(x: F, j: nat)
    ensures
        x.pow(2 * j) == (x * x).pow(j),
    decreases j,
{
    if j > 0 {
        let i: nat = (j - 1) as nat;
        lemma_pow_square(x, i);
        assert(x.pow(2 * j) == x.pow((2 * j - 1) as nat) * x);
        assert(x.pow((2 * j - 1) as nat) == x.pow(2 * i) * x);
        field::lemma_mul_assoc(x.pow(2 * i), x, x);
    }
}

/// A sum of one coefficient is the coefficient.
proof fn lemma_eval_one(f: spec_fn(int) -> EF, x: F)
    requires
        f(0).canonical(),
    ensures
        eval(1, f, x) == f(0),
{
    let g = |j: int| f(j).scale_spec(x.pow(j as nat));
    assert(sums::sum(1, g) == sums::sum(0, g) + g(0));
    lemma_scale_one(f(0));
    ext::lemma_add_zero(f(0));
}

pub proof fn lemma_scale_one(a: EF)
    requires
        a.canonical(),
    ensures
        a.scale_spec(F::one_spec()) == a,
{
    ext::lemma_scale_is_mul(a, F::one_spec());
    ext::lemma_mul_one(a);
}

/// The generator of the subgroup of order `2^bits`.
pub fn two_adic_generator(bits: usize) -> (r: F)
    requires
        bits <= TWO_ADICITY,
    ensures
        r == F::root(bits as nat),
{
    let mut r: F = F::new(field::TWO_ADIC_ROOT);
    let mut k: usize = TWO_ADICITY;
    while k > bits
        invariant
            bits <= k <= TWO_ADICITY,
            r == F::root(k as nat),
        decreases k,
    {
        r = r.mul(r);
        k = k - 1;
    }
    r
}

/// What the values are after the stages up to blocks of size `2^t`.
spec fn stage_done(a0: Seq<EF>, cur: Seq<EF>, l: nat, t: nat) -> bool {
    &&& cur.len() == a0.len()
    &&& forall|c: int, i: int|
        0 <= c < pow2((l - t) as nat) && 0 <= i < pow2(t) ==> #[trigger] cur[c * pow2(t) + i] == eval(
            pow2(t),
            block(a0, l, t, c),
            F::root(t).pow(i as nat),
        )
}

/// One butterfly of the stage from blocks of size `2^t` to blocks of size `2^(t + 1)`.
proof fn lemma_butterfly(a0: Seq<EF>, l: nat, t: nat, c: int, i: int, u: EF, v: EF)
    requires
        t < l <= TWO_ADICITY,
        a0.len() == pow2(l),
        0 <= c < pow2((l - t - 1) as nat),
        0 <= i < pow2(t),
        u == eval(pow2(t), block(a0, l, t, 2 * c), F::root(t).pow(i as nat)),
        v == eval(pow2(t), block(a0, l, t, 2 * c + 1), F::root(t).pow(i as nat)).scale_spec(
            F::root(t + 1).pow(i as nat),
        ),
    ensures
        u + v == eval(pow2(t + 1), block(a0, l, t + 1, c), F::root(t + 1).pow(i as nat)),
        u - v == eval(pow2(t + 1), block(a0, l, t + 1, c), F::root(t + 1).pow((i + pow2(t)) as nat)),
{
    let s: nat = pow2(t);
    let w = F::root(t + 1);
    let n: nat = i as nat;
    let x = w.pow(n);
    let y = w.pow((n + s) as nat);
    let f = block(a0, l, t + 1, c);
    let ev = |j: int| f(2 * j);
    let od = |j: int| f(2 * j + 1);
    let d: nat = (l - t) as nat;
    let e: nat = (l - t - 1) as nat;
    lemma_pow2_unfold(t + 1);
    lemma_pow2_unfold(d);
    assert(F::root(t) == w * w);
    // The square of x is the power of the smaller root.
    assert(x * x == F::root(t).pow(n)) by {
        field::lemma_pow_add(w, n, n);
        lemma_pow_square(w, n);
    }
    assert(y * y == F::root(t).pow(n)) by {
        field::lemma_pow_add(w, n, s);
        units::lemma_root_half(t + 1);
        lemma_negated_square(x);
    }
    lemma_eval_merge(s, f, x);
    lemma_eval_merge(s, f, y);
    assert forall|j: int| 0 <= j < s implies #[trigger] ev(j) == block(a0, l, t, 2 * c)(j) by {
        assert(2 * j * pow2(e) == j * pow2(d)) by (nonlinear_arith)
            requires
                pow2(d) == 2 * pow2(e),
        ;
        assert((2 * c) as nat / 2 == c as nat);
        assert((2 * c) as nat % 2 == 0);
        assert(0 * pow2(e) == 0);
        assert(reversed(d, (2 * c) as nat) == reversed(e, c as nat));
    }
    assert forall|j: int| 0 <= j < s implies #[trigger] od(j) == block(a0, l, t, 2 * c + 1)(j) by {
        assert((2 * j + 1) * pow2(e) == j * pow2(d) + pow2(e)) by (nonlinear_arith)
            requires
                pow2(d) == 2 * pow2(e),
        ;
        assert((2 * c + 1) as nat / 2 == c as nat);
        assert((2 * c + 1) as nat % 2 == 1);
        assert(1 * pow2(e) == pow2(e));
        assert(reversed(d, (2 * c + 1) as nat) == reversed(e, c as nat) + pow2(e));
    }
    lemma_eval_ext(s, ev, block(a0, l, t, 2 * c), x * x);
    lemma_eval_ext(s, od, block(a0, l, t, 2 * c + 1), x * x);
    // y is the negative of x.
    let o = eval(s, od, x * x);
    assert(o.scale_spec(y) == o.scale_spec(x).negate_spec()) by {
        field::lemma_pow_add(w, n, s);
        units::lemma_root_half(t + 1);
        assert(y == x * F::of(-1));
        ext::lemma_scale_scale(o, x, F::of(-1));
        ext::lemma_negate_is_scale(o.scale_spec(x));
    }
    ext::lemma_sub_is_add_neg(u, v);
}

proof fn lemma_negated_square(x: F)
    ensures
        (x * F::of(-1)) * (x * F::of(-1)) == x * x,
{
    let m = F::of(-1);
    field::lemma_mul_assoc(x, m, x * m);
    field::lemma_mul_comm(m, x * m);
    field::lemma_mul_assoc(x, m, m);
    field::lemma_of_mul(-1, -1);
    field::lemma_mul_assoc(x, x, F::of(1));
    field::lemma_of_val(x.val() * x.val());
    field::lemma_mul_one(x * x);
}

pub proof fn lemma_eval_ext(n: nat, f: spec_fn(int) -> EF, g: spec_fn(int) -> EF, x: F)
    requires
        forall|j: int| 0 <= j < n ==> #[trigger] f(j) == g(j),
    ensures
        eval(n, f, x) == eval(n, g, x),
{
    let p = |j: int| f(j).scale_spec(x.pow(j as nat));
    let q = |j: int| g(j).scale_spec(x.pow(j as nat));
    assert forall|j: int| 0 <= j < n implies #[trigger] p(j) == q(j) by {
        assert(f(j) == g(j));
    }
    sums::lemma_sum_ext(n, p, q);
}

/// The butterflies of one block: `a[start + i]` with `a[start + half + i]` for `i < half`.
fn butterfly_block(a: &mut Vec<EF>, start: usize, half: usize, root: F)
    requires
        start + 2 * half <= old(a)@.len(),
    ensures
        final(a)@.len() == old(a)@.len(),
        forall|p: int|
            0 <= p < old(a)@.len() && !(start <= p < start + 2 * half) ==> #[trigger] final(a)@[p] == old(a)@[p],
        forall|i: int|
            0 <= i < half ==> #[trigger] final(a)@[start + i] == old(a)@[start + i] + old(a)@[start + half
                + i].scale_spec(root.pow(i as nat)),
        forall|i: int|
            0 <= i < half ==> #[trigger] final(a)@[start + half + i] == old(a)@[start + i] - old(a)@[start + half
                + i].scale_spec(root.pow(i as nat)),
{
    let ghost a0 = a@;
    let n: usize = a.len();
    let mut twiddle: F = F::one();
    let mut i: usize = 0;
    while i < half
        invariant
            i <= half,
            n == a0.len(),
            start + 2 * half <= a0.len(),
            a@.len() == a0.len(),
            twiddle == root.pow(i as nat),
            forall|p: int|
                0 <= p < a0.len() && !(start <= p < start + i) && !(start + half <= p < start + half + i)
                    ==> #[trigger] a@[p] == a0[p],
            forall|k: int|
                0 <= k < i ==> #[trigger] a@[start + k] == a0[start + k] + a0[start + half + k].scale_spec(
                    root.pow(k as nat),
                ),
            forall|k: int|
                0 <= k < i ==> #[trigger] a@[start + half + k] == a0[start + k] - a0[start + half + k].scale_spec(
                    root.pow(k as nat),
                ),
        decreases half - i,
    {
        let u = a[start + i];
        let v = a[start + i + half].scale(twiddle);
        let ghost before = a@;
        a.set(start + i, u.add(v));
        a.set(start + i + half, u.sub(v));
        twiddle = twiddle.mul(root);
        proof {
            assert(before[start + i] == a0[start + i]);
            assert(before[start + half + i] == a0[start + half + i]);
            assert forall|k: int| 0 <= k < i + 1 implies #[trigger] a@[start + k] == a0[start + k] + a0[start + half
                + k].scale_spec(root.pow(k as nat)) by {
                if k < i {
                    assert(a@[start + k] == before[start + k]);
                }
            }
            assert forall|k: int| 0 <= k < i + 1 implies #[trigger] a@[start + half + k] == a0[start + k] - a0[start
                + half + k].scale_spec(root.pow(k as nat)) by {
                if k < i {
                    assert(a@[start + half + k] == before[start + half + k]);
                }
            }
        }
        i = i + 1;
    }
}

/// The stage from blocks of size `half` to blocks of twice the size.
fn stage(a: &mut Vec<EF>, half: usize, root: F, Ghost(a0): Ghost<Seq<EF>>, Ghost(l): Ghost<nat>, Ghost(t): Ghost<nat>)
    requires
        t < l <= TWO_ADICITY,
        a0.len() == pow2(l),
        half == pow2(t),
        root == F::root(t + 1),
        stage_done(a0, old(a)@, l, t),
    ensures
        stage_done(a0, final(a)@, l, t + 1),
{
    let n: usize = a.len();
    let ghost s0 = a@;
    let ghost e: nat = (l - t - 1) as nat;
    proof {
        lemma_pow2_unfold(t + 1);
        lemma_pow2_unfold((l - t) as nat);
        lemma_pow2_adds(t, (l - t) as nat);
        lemma_pow2_adds(t + 1, e);
        lemma_pow2_pos(t);
        arith::lemma_pow2_monotone(t + 1, l);
    }
    let size: usize = 2 * half;
    let mut start: usize = 0;
    let ghost mut c: int = 0;
    while start < n
        invariant
            t < l <= TWO_ADICITY,
            a0.len() == pow2(l),
            n == pow2(l),
            half == pow2(t),
            size == pow2(t + 1),
            size == 2 * half,
            half > 0,
            e == l - t - 1,
            root == F::root(t + 1),
            pow2(l) == pow2(t + 1) * pow2(e),
            pow2((l - t) as nat) == 2 * pow2(e),
            stage_done(a0, s0, l, t),
            a@.len() == n,
            s0.len() == n,
            start == c * size,
            0 <= c <= pow2(e),
            forall|p: int| start <= p < n ==> #[trigger] a@[p] == s0[p],
            forall|b: int, i: int|
                0 <= b < c && 0 <= i < size ==> #[trigger] a@[b * pow2(t + 1) + i] == eval(
                    pow2(t + 1),
                    block(a0, l, t + 1, b),
                    F::root(t + 1).pow(i as nat),
                ),
        decreases n - start,
    {
        let ghost before = a@;
        proof {
            assert(c < pow2(e)) by (nonlinear_arith)
                requires
                    c * size < size * pow2(e),
                    size > 0,
            ;
            assert((c + 1) * size <= size * pow2(e)) by (nonlinear_arith)
                requires
                    c + 1 <= pow2(e),
                    size > 0,
            ;
            assert((c + 1) * size == c * size + size) by (nonlinear_arith);
        }
        butterfly_block(a, start, half, root);
        proof {
            assert forall|b: int, i: int| 0 <= b < c + 1 && 0 <= i < size implies #[trigger] a@[b * pow2(t + 1) + i] == eval(
                pow2(t + 1),
                block(a0, l, t + 1, b),
                F::root(t + 1).pow(i as nat),
            ) by {
                if b < c {
                    assert(b * pow2(t + 1) + i < c * size) by (nonlinear_arith)
                        requires
                            b + 1 <= c,
                            0 <= i < size,
                            size == pow2(t + 1),
                            b >= 0,
                    ;
                    assert(b * pow2(t + 1) >= 0) by (nonlinear_arith)
                        requires
                            b >= 0,
                    ;
                    assert(a@[b * pow2(t + 1) + i] == before[b * pow2(t + 1) + i]);
                } else {
                    let k: int = if i < half { i } else { i - half };
                    assert(2 * c * pow2(t) == c * size) by (nonlinear_arith)
                        requires
                            size == 2 * pow2(t),
                    ;
                    assert((2 * c + 1) * pow2(t) == c * size + half) by (nonlinear_arith)
                        requires
                            size == 2 * pow2(t),
                            half == pow2(t),
                    ;
                    assert(s0[(2 * c) * pow2(t) + k] == eval(
                        pow2(t),
                        block(a0, l, t, 2 * c),
                        F::root(t).pow(k as nat),
                    ));
                    assert(s0[(2 * c + 1) * pow2(t) + k] == eval(
                        pow2(t),
                        block(a0, l, t, 2 * c + 1),
                        F::root(t).pow(k as nat),
                    ));
                    assert(before[start + k] == s0[start + k]);
                    assert(before[start + half + k] == s0[start + half + k]);
                    let u = before[start + k];
                    let v = before[start + half + k].scale_spec(root.pow(k as nat));
                    lemma_butterfly(a0, l, t, c, k, u, v);
                    if i < half {
                        assert(a@[start + k] == u + v);
                    } else {
                        assert(a@[start + half + k] == u - v);
                    }
                }
            }
            c = c + 1;
        }
        start = start + size;
    }
    proof {
        assert(c == pow2(e)) by (nonlinear_arith)
            requires
                c * size >= size * pow2(e),
                c <= pow2(e),
                size > 0,
        ;
        assert((l - (t + 1)) as nat == e);
    }
}

/// The number theoretic transform: the values of the polynomial with the given coefficients at the
/// powers of the generator of the subgroup whose order is their number.
pub fn ntt(a: &mut Vec<EF>)
    requires
        arith::is_power(old(a)@.len()),
        2 <= old(a)@.len() <= pow2(TWO_ADICITY as nat),
    ensures
        final(a)@.len() == old(a)@.len(),
        forall|k: int|
            0 <= k < old(a)@.len() ==> #[trigger] final(a)@[k] == eval(
                old(a)@.len(),
                |j: int| old(a)@[j],
                F::root(arith::log2_ceil_spec(old(a)@.len())).pow(k as nat),
            ),
{
    let n: usize = a.len();
    let bits: usize = arith::log2_strict(n);
    let ghost a0 = a@;
    let ghost l: nat = bits as nat;
    known_canonical(a);
    proof {
        arith::lemma_next_pow2_of_power(l);
        lemma2_to64();
        if l > TWO_ADICITY {
            lemma_pow2_strictly_increases(TWO_ADICITY as nat, l);
        }
    }
    reverse_order(a, bits);
    let mut t: usize = 0;
    let mut half: usize = 1;
    proof {
        assert forall|c: int, i: int| 0 <= c < pow2(l) && 0 <= i < pow2(0) implies #[trigger] a@[c * pow2(0) + i] == eval(
            pow2(0),
            block(a0, l, 0, c),
            F::root(0).pow(i as nat),
        ) by {
            assert(c * 1 + 0 == c);
            lemma_reversed_bound(l, c as nat);
            let f = block(a0, l, 0, c);
            assert(0 * pow2(l) == 0);
            assert(f(0) == a0[reversed(l, c as nat) as int]);
            lemma_eval_one(f, F::root(0).pow(i as nat));
            assert(a@[c] == a0[reversed(l, c as nat) as int]);
        }
        assert((l - 0) as nat == l);
        assert(stage_done(a0, a@, l, 0));
    }
    while t < bits
        invariant
            t <= bits,
            l == bits,
            l <= TWO_ADICITY,
            half == pow2(t as nat),
            n == pow2(l),
            a0.len() == n,
            a@.len() == n,
            stage_done(a0, a@, l, t as nat),
        decreases bits - t,
    {
        let root = two_adic_generator(t + 1);
        stage(a, half, root, Ghost(a0), Ghost(l), Ghost(t as nat));
        t = t + 1;
        proof {
            lemma_pow2_unfold(t as nat);
            arith::lemma_pow2_monotone(t as nat, l);
        }
        half = 2 * half;
    }
    proof {
        lemma2_to64();
        assert forall|k: int| 0 <= k < a0.len() implies #[trigger] a@[k] == eval(
            a0.len(),
            |j: int| a0[j],
            F::root(l).pow(k as nat),
        ) by {
            assert(0 * pow2(l) + k == k);
            assert((l - l) as nat == 0);
            assert(a@[0 * pow2(l) + k] == eval(pow2(l), block(a0, l, l, 0), F::root(l).pow(k as nat)));
            let f = block(a0, l, l, 0);
            let g = |j: int| a0[j];
            assert forall|j: int| 0 <= j < a0.len() implies #[trigger] f(j) == g(j) by {
                assert(j * 1 + 0 == j);
                assert(reversed(0, 0) == 0);
            }
            lemma_eval_ext(a0.len(), f, g, F::root(l).pow(k as nat));
        }
    }
}

/// The codeword of a message: the values of the polynomial with the message as its coefficients
/// at the powers of the generator of the subgroup of twice the message's length.
pub open spec fn codeword_spec(message: Seq<EF>) -> Seq<EF> {
    Seq::new(
        2 * message.len(),
        |k: int|
            eval(
                message.len(),
                |j: int| message[j],
                F::root(arith::log2_ceil_spec(2 * message.len())).pow(k as nat),
            ),
    )
}

/// Encodes a message at rate one half.
pub fn rs_encode(message: &Vec<EF>) -> (codeword: Vec<EF>)
    requires
        arith::is_power(message@.len()),
        2 * message@.len() <= pow2(TWO_ADICITY as nat),
    ensures
        codeword@ == codeword_spec(message@),
{
    let m: usize = message.len();
    let mut codeword: Vec<EF> = Vec::new();
    proof {
        lemma2_to64();
    }
    let mut i: usize = 0;
    while i < m
        invariant
            i <= m,
            m == message@.len(),
            codeword@ == message@.subrange(0, i as int),
        decreases m - i,
    {
        codeword.push(message[i]);
        i = i + 1;
    }
    let mut i: usize = 0;
    while i < m
        invariant
            i <= m,
            m == message@.len(),
            codeword@.len() == m + i,
            forall|k: int| 0 <= k < m ==> #[trigger] codeword@[k] == message@[k],
            forall|k: int| m <= k < m + i ==> #[trigger] codeword@[k] == EF::zero_spec(),
        decreases m - i,
    {
        codeword.push(EF::zero());
        i = i + 1;
    }
    let ghost padded = codeword@;
    proof {
        let k = choose|k: nat| m as nat == #[trigger] pow2(k);
        lemma_pow2_pos(k);
        lemma_pow2_unfold(k + 1);
        assert(padded.len() == pow2(k + 1));
    }
    ntt(&mut codeword);
    proof {
        let n: nat = message@.len();
        let f = |j: int| padded[j];
        let g = |j: int| message@[j];
        assert forall|k: int| 0 <= k < padded.len() implies #[trigger] codeword@[k] == codeword_spec(message@)[k] by {
            let x = F::root(arith::log2_ceil_spec(2 * n)).pow(k as nat);
            assert(codeword@[k] == eval(padded.len(), f, x));
            lemma_eval_padded(n, n, f, x);
            lemma_eval_ext(n, f, g, x);
        }
        assert(codeword@ =~= codeword_spec(message@));
    }
    codeword
}

/// Zero coefficients at the top do not change the value.
proof fn lemma_eval_padded(n: nat, extra: nat, f: spec_fn(int) -> EF, x: F)
    requires
        forall|j: int| n <= j < n + extra ==> #[trigger] f(j) == EF::zero_spec(),
    ensures
        eval(n + extra, f, x) == eval(n, f, x),
{
    let g = |j: int| f(j).scale_spec(x.pow(j as nat));
    sums::lemma_sum_split(n, extra, g);
    let h = |i: int| g(n + i);
    assert forall|i: int| 0 <= i < extra implies #[trigger] h(i) == EF::zero_spec() by {
        assert(f(n + i) == EF::zero_spec());
        ext::lemma_scale_zero(EF::zero_spec());
        assert(EF::zero_spec().scale_spec(x.pow((n + i) as nat)) == EF::zero_spec());
    }
    sums::lemma_sum_zero(extra, h);
    sums::lemma_sum_canonical(n, g);
    ext::lemma_add_zero(sums::sum(n, g));
}

/// Digit `d` of the reversed number is digit `bits - 1 - d` of the number.
pub proof fn law_reversed_swaps_digits(bits: nat, i: nat, d: nat)
    requires
        d < bits,
    ensures
        reversed(bits, i) / pow2(d) % 2 == i / pow2((bits - 1 - d) as nat) % 2,
        reversed(bits, i) < pow2(bits),
    decreases bits,
{
    let b: nat = (bits - 1) as nat;
    let r: nat = reversed(b, i / 2);
    lemma_reversed_bound(b, i / 2);
    lemma_reversed_bound(bits, i);
    lemma_pow2_pos(d);
    lemma2_to64();
    if d == b {
        // The top digit.
        assert(i / pow2(0) == i);
        if i % 2 == 1 {
            assert((i % 2) * pow2(b) == pow2(b)) by (nonlinear_arith)
                requires
                    i % 2 == 1,
            ;
            lemma_fundamental_div_mod_converse(
                r + pow2(b) as int,
                pow2(b) as int,
                1,
                r as int,
            );
        } else {
            assert((i % 2) * pow2(b) == 0) by (nonlinear_arith)
                requires
                    i % 2 == 0,
            ;
            lemma_fundamental_div_mod_converse(
                r as int,
                pow2(b) as int,
                0,
                r as int,
            );
        }
    } else {
        law_reversed_swaps_digits(b, i / 2, d);
        let e: nat = (b - 1 - d) as nat;
        lemma_pow2_unfold((e + 1) as nat);
        lemma_pow2_pos(e);
        lemma_div_denominator(i as int, 2, pow2(e) as int);
        // What is added is a multiple of the next power.
        lemma_pow2_unfold((b - d) as nat);
        lemma_pow2_adds(d, (b - d) as nat);
        let m: nat = (i % 2) * pow2(e);
        assert((i % 2) * pow2(b) == 2 * m * pow2(d)) by (nonlinear_arith)
            requires
                pow2(b) == pow2(d) * (2 * pow2(e)),
                m == (i % 2) * pow2(e),
        ;
        lemma_fundamental_div_mod(r as int, pow2(d) as int);
        let q: int = (r / pow2(d)) as int;
        let t: int = (r % pow2(d)) as int;
        assert(pow2(d) * q == q * pow2(d)) by (nonlinear_arith);
        assert((q + 2 * m) * pow2(d) == q * pow2(d) + 2 * m * pow2(d)) by (nonlinear_arith);
        lemma_fundamental_div_mod_converse(
            (r + 2 * m * pow2(d)) as int,
            pow2(d) as int,
            q + 2 * m,
            t,
        );
    }
}

} // verus!
