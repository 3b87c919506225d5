//! Powers of sums in the extension field.
use crate::ext;
use crate::ext::EF;
use crate::field;
use crate::field::{F, MODULUS};
use crate::sums;
use crate::units;
use vstd::arithmetic::div_mod::*;
use vstd::prelude::*;

verus! {

/// The binomial coefficient.
spec fn choices(n: nat, k: nat) -> nat
    decreases n,
{
    if k == 0 {
        1
    } else if n == 0 {
        0
    } else {
        choices((n - 1) as nat, (k - 1) as nat) + choices((n - 1) as nat, k)
    }
}

proof fn lemma_too_many(n: nat, k: nat)
    requires
        n < k,
    ensures
        choices(n, k) == 0,
    decreases n,
{
    if n > 0 {
        lemma_too_many((n - 1) as nat, (k - 1) as nat);
        lemma_too_many((n - 1) as nat, k);
    }
}

proof fn lemma_all(n: nat)
    ensures
        choices(n, n) == 1,
    decreases n,
{
    if n > 0 {
        lemma_all((n - 1) as nat);
        lemma_too_many((n - 1) as nat, n);
    }
}

/// `k` times a binomial coefficient is `n` times the one below it on both sides.
proof fn lemma_absorb(n: nat, k: nat)
    requires
        n > 0,
        k > 0,
    ensures
        k * choices(n, k) == n * choices((n - 1) as nat, (k - 1) as nat),
    decreases n,
{
    let m: nat = (n - 1) as nat;
    let l: nat = (k - 1) as nat;
    let (x, y) = (choices(m, l), choices(m, k));
    assert(choices(n, k) == x + y);
    if m == 0 {
        assert(y == 0);
        if l > 0 {
            assert(x == 0);
        }
        assert(k * (x + y) == n * x) by (nonlinear_arith)
            requires
                n == 1,
                y == 0,
                x == 0 || k == 1,
        ;
    } else {
        lemma_absorb(m, k);
        let z = choices((m - 1) as nat, l);
        if l == 0 {
            assert(x == 1 && z == 1);
            assert(k * (x + y) == n * x) by (nonlinear_arith)
                requires
                    k == 1,
                    x == 1,
                    z == 1,
                    k * y == m * z,
                    n == m + 1,
            ;
        } else {
            lemma_absorb(m, l);
            let w = choices((m - 1) as nat, (l - 1) as nat);
            assert(x == w + z);
            assert(k * (x + y) == n * x) by (nonlinear_arith)
                requires
                    k == l + 1,
                    n == m + 1,
                    x == w + z,
                    l * x == m * w,
                    k * y == m * z,
            ;
        }
    }
}

/// The binomial coefficients of the characteristic are zero in the field, but for the first and the
/// last.
proof fn lemma_middle_is_zero(k: nat)
    requires
        0 < k < MODULUS,
    ensures
        F::of(choices(MODULUS as nat, k) as int) == F::zero_spec(),
{
    let p: nat = MODULUS as nat;
    let c: int = choices(p, k) as int;
    let d: int = choices((p - 1) as nat, (k - 1) as nat) as int;
    lemma_absorb(p, k);
    field::lemma_of_mul(k as int, c);
    field::lemma_of_mul(p as int, d);
    field::lemma_of_val(p as int);
    field::lemma_of_val(0);
    field::lemma_of_val(k as int);
    field::lemma_of_val(c);
    lemma_small_mod(k, p);
    field::lemma_val_injective(F::of(p as int), F::zero_spec());
    field::lemma_mul_comm(F::zero_spec(), F::of(d));
    field::lemma_mul_zero(F::of(d));
    let a = F::of(k as int);
    let u = units::lemma_inverse_exists(a);
    // c == (a u) c == u (a c) == 0
    field::lemma_mul_comm(a, u);
    field::lemma_mul_assoc(u, a, F::of(c));
    field::lemma_mul_zero(u);
    field::lemma_mul_comm(F::one_spec(), F::of(c));
    field::lemma_mul_one(F::of(c));
}

/// One term of the power of a sum.
spec fn term(a: EF, b: EF, n: nat, k: int) -> EF {
    (a.pow(k as nat) * b.pow((n - k) as nat)).scale_spec(F::of(choices(n, k as nat) as int))
}

/// The power of a sum.
proof fn lemma_binomial(a: EF, b: EF, n: nat)
    ensures
        (a + b).pow(n) == sums::sum(n + 1, |k: int| term(a, b, n, k)),
    decreases n,
{
    let t = |k: int| term(a, b, n, k);
    let one = EF::one_spec();
    let z = EF::zero_spec();
    ext::lemma_constants_canonical();
    if n == 0 {
        assert(sums::sum(1, t) == sums::sum(0, t) + t(0));
        ext::lemma_mul_one(one);
        assert(choices(0, 0) == 1);
        ext::lemma_scale_is_mul(one, F::one_spec());
        ext::lemma_add_zero(one);
        ext::lemma_add_comm(z, one);
    } else {
        let m: nat = (n - 1) as nat;
        lemma_binomial(a, b, m);
        let s = |k: int| term(a, b, m, k);
        // The terms of the product with `b`, and those of the product with `a`, one place on.
        let v = |k: int| (a.pow(k as nat) * b.pow((n - k) as nat)).scale_spec(F::of(choices(m, k as nat) as int));
        let u = |k: int|
            if k == 0 {
                z
            } else {
                (a.pow(k as nat) * b.pow((n - k) as nat)).scale_spec(F::of(choices(m, (k - 1) as nat) as int))
            };
        let uv = |k: int| u(k) + v(k);
        assert forall|k: int| 0 <= k < n + 1 implies #[trigger] t(k) == uv(k) by {
            let w = a.pow(k as nat) * b.pow((n - k) as nat);
            if k == 0 {
                assert(choices(n, 0) == 1 && choices(m, 0) == 1);
                ext::lemma_scale_canonical(w, F::of(1));
                ext::lemma_add_zero(v(0));
                ext::lemma_add_comm(z, v(0));
            } else {
                let (x, y) = (choices(m, (k - 1) as nat) as int, choices(m, k as nat) as int);
                assert(choices(n, k as nat) == x + y);
                field::lemma_of_add(x, y);
                ext::lemma_scale_scalar_add(w, F::of(x), F::of(y));
            }
        }
        sums::lemma_sum_ext(n + 1, t, uv);
        sums::lemma_sum_add(n + 1, u, v);
        // The last term of `v` is zero.
        let top = a.pow(n) * b.pow(0);
        lemma_too_many(m, n);
        ext::lemma_scale_zero(top);
        assert(v(n as int) == z);
        sums::lemma_sum_canonical(n, v);
        ext::lemma_add_zero(sums::sum(n, v));
        assert(sums::sum(n + 1, v) == sums::sum(n, v));
        // The first term of `u` is zero.
        let next = |k: int| u(1 + k);
        sums::lemma_sum_first(n + 1, u);
        sums::lemma_sum_canonical(n, next);
        ext::lemma_add_comm(z, sums::sum(n, next));
        ext::lemma_add_zero(sums::sum(n, next));
        assert(sums::sum(n + 1, u) == sums::sum(n, next));
        let sa = |k: int| s(k) * a;
        let sb = |k: int| s(k) * b;
        assert forall|k: int| 0 <= k < n implies #[trigger] next(k) == sa(k) by {
            let c = F::of(choices(m, k as nat) as int);
            let (x, y) = (a.pow(k as nat), b.pow((m - k) as nat));
            assert((n - (1 + k)) as nat == (m - k) as nat);
            assert(a.pow((1 + k) as nat) == x * a);
            ext::lemma_mul_scale_left(x * y, a, c);
            ext::lemma_mul_assoc(x, y, a);
            ext::lemma_mul_comm(y, a);
            ext::lemma_mul_assoc(x, a, y);
        }
        assert forall|k: int| 0 <= k < n implies #[trigger] v(k) == sb(k) by {
            let c = F::of(choices(m, k as nat) as int);
            let (x, y) = (a.pow(k as nat), b.pow((m - k) as nat));
            assert((n - k - 1) as nat == (m - k) as nat);
            assert(b.pow((n - k) as nat) == y * b);
            ext::lemma_mul_scale_left(x * y, b, c);
            ext::lemma_mul_assoc(x, y, b);
        }
        sums::lemma_sum_ext(n, next, sa);
        sums::lemma_sum_ext(n, v, sb);
        sums::lemma_sum_mul_right(n, s, a);
        sums::lemma_sum_mul_right(n, s, b);
        ext::lemma_mul_distrib_right(sums::sum(n, s), a, b);
    }
}

/// Raising to the characteristic is additive.
pub proof fn lemma_power_of_sum(a: EF, b: EF)
    ensures
        (a + b).pow(MODULUS as nat) == a.pow(MODULUS as nat) + b.pow(MODULUS as nat),
{
    let p: nat = MODULUS as nat;
    let one = EF::one_spec();
    let z = EF::zero_spec();
    let t = |k: int| term(a, b, p, k);
    lemma_binomial(a, b, p);
    assert(sums::sum(p + 1, t) == sums::sum(p, t) + t(p as int));
    assert forall|k: int| 0 < k < p implies #[trigger] t(k) == z by {
        lemma_middle_is_zero(k as nat);
        ext::lemma_scale_zero(a.pow(k as nat) * b.pow((p - k) as nat));
    }
    ext::lemma_constants_canonical();
    // The first term.
    ext::lemma_pow_canonical(b, p);
    ext::lemma_mul_comm(one, b.pow(p));
    ext::lemma_mul_one(b.pow(p));
    assert(choices(p, 0) == 1);
    ext::lemma_scale_is_mul(b.pow(p), F::one_spec());
    assert(t(0) == b.pow(p));
    sums::lemma_sum_single(p, 0, t);
    // The last term.
    lemma_all(p);
    ext::lemma_pow_canonical(a, p);
    ext::lemma_mul_one(a.pow(p));
    ext::lemma_scale_is_mul(a.pow(p), F::one_spec());
    assert(t(p as int) == a.pow(p));
    ext::lemma_add_comm(a.pow(p), b.pow(p));
}

} // verus!
