//! The parity check of codewords: both halves of a codeword agree on the value of the message
//! polynomial at a point outside the evaluation domain.
use crate::arith;
use crate::ext;
use crate::ext::EF;
use crate::field;
use crate::field::{F, TWO_ADICITY};
use crate::frobenius;
use crate::ntt;
use crate::sums;
use crate::units;
use vstd::arithmetic::mul::*;
use vstd::arithmetic::power2::*;
use vstd::prelude::*;

verus! {

/// The inverse of element `t` of the evaluation domain of codewords of messages of `2^log_m`
/// elements.
pub open spec fn node_inverse(log_m: nat, t: int) -> F {
    F::root(log_m + 1).pow((2 * pow2(log_m) - t) as nat)
}

/// The point over element `t` of the domain.
pub open spec fn node_ratio(log_m: nat, r: EF, t: int) -> EF {
    r.scale_spec(node_inverse(log_m, t))
}

/// `1 + s + ... + s^(m - 1)`.
pub open spec fn geometric(s: EF, m: nat) -> EF {
    sums::sum(m, |k: int| s.pow(k as nat))
}

/// The weight of element `t` of a codeword in the parity check at `r`.
pub open spec fn parity_weight(log_m: nat, r: EF, t: int) -> EF {
    geometric(node_ratio(log_m, r, t), pow2(log_m))
}

/// The weighted sum over a half of a word.
pub open spec fn half_check(log_m: nat, r: EF, word: Seq<EF>, side: int) -> EF {
    sums::sum(pow2(log_m), |j: int| parity_weight(log_m, r, 2 * j + side) * word[2 * j + side])
}

/// Element `t` of the domain.
pub open spec fn domain_point(log_m: nat, t: int) -> EF {
    EF::from_base_spec(F::root(log_m + 1).pow(t as nat))
}

/// Whether the point is no element of the domain.
pub open spec fn outside_domain(log_m: nat, r: EF) -> bool {
    forall|t: int| 0 <= t < 2 * pow2(log_m) ==> r != #[trigger] domain_point(log_m, t)
}

/// The point over an element of the domain is one where it is that element.
proof fn lemma_ratio_is_one(log_m: nat, r: EF, t: int)
    requires
        log_m < TWO_ADICITY,
        0 <= t < 2 * pow2(log_m),
        r.canonical(),
    ensures
        node_ratio(log_m, r, t) - EF::one_spec() == EF::zero_spec() <==> r == domain_point(log_m, t),
{
    let w = F::root(log_m + 1);
    let one = EF::one_spec();
    let a = w.pow(t as nat);
    let b = node_inverse(log_m, t);
    let s = node_ratio(log_m, r, t);
    let n: nat = 2 * pow2(log_m);
    lemma_pow2_unfold(log_m + 1);
    units::lemma_root_order(log_m + 1);
    field::lemma_pow_add(w, t as nat, (n - t) as nat);
    assert(t as nat + (n - t) as nat == n);
    assert(a * b == F::one_spec());
    field::lemma_mul_comm(a, b);
    ext::lemma_constants_canonical();
    ext::lemma_scale_canonical(r, b);
    ext::lemma_sub_zero_iff(s, one);
    // r is s scaled back.
    ext::lemma_scale_scale(r, b, a);
    ntt::lemma_scale_one(r);
    ext::lemma_from_base_ring(F::one_spec(), a);
    field::lemma_pow_canonical(w, t as nat);
    field::lemma_mul_comm(F::one_spec(), a);
    field::lemma_mul_one(a);
    ext::lemma_from_base_ring(a, b);
}

/// The sum of powers against one less than the base.
pub proof fn lemma_geometric(s: EF, m: nat)
    requires
        s.canonical(),
    ensures
        geometric(s, m) * (s - EF::one_spec()) == s.pow(m) - EF::one_spec(),
    decreases m,
{
    let one = EF::one_spec();
    let f = |k: int| s.pow(k as nat);
    if m == 0 {
        ext::lemma_mul_zero(s - one);
        ext::lemma_sub_self(one);
    } else {
        let n: nat = (m - 1) as nat;
        lemma_geometric(s, n);
        let p = s.pow(n);
        ext::lemma_mul_distrib_left(geometric(s, n), p, s - one);
        ext::lemma_mul_distrib_sub_right(p, s, one);
        ext::lemma_pow_canonical(s, n);
        ext::lemma_mul_one(p);
        // (p - 1) + (p s - p) == p s - 1
        ext::lemma_add_comm(p - one, p * s - p);
        ext::lemma_sub_is_add_neg(p, one);
        ext::lemma_add_assoc(p * s - p, p, one.negate_spec());
        ext::lemma_mul_canonical(p, s);
        ext::lemma_sub_add_cancel(p * s, p);
        ext::lemma_sub_is_add_neg(p * s, one);
    }
}

/// A quotient that exists is determined by its product with the denominator.
proof fn lemma_quotient(a: EF, b: EF, d: EF)
    requires
        a.canonical(),
        b.canonical(),
        d.canonical(),
        d != EF::zero_spec(),
        a * d == b * d,
    ensures
        a == b,
{
    frobenius::law_nonzero_has_inverse(d);
    let e = choose|e: EF| e.canonical() && #[trigger] (d * e) == EF::one_spec();
    ext::lemma_mul_assoc(a, d, e);
    ext::lemma_mul_assoc(b, d, e);
    ext::lemma_mul_one(a);
    ext::lemma_mul_one(b);
}

/// Inverses in the base field are unique.
proof fn lemma_inverse_unique(a: F, b: F, c: F)
    requires
        b.canonical(),
        c.canonical(),
        a * b == F::one_spec(),
        a * c == F::one_spec(),
    ensures
        b == c,
{
    field::lemma_mul_assoc(b, a, c);
    field::lemma_mul_comm(a, b);
    field::lemma_mul_one(b);
    field::lemma_mul_one(c);
}

/// The powers of the inverse of the generator, and of its square.
proof fn lemma_node_inverse(log_m: nat, w_inv: F, u_inv: F)
    requires
        log_m < TWO_ADICITY,
        w_inv.canonical(),
        u_inv.canonical(),
        F::root(log_m + 1) * w_inv == F::one_spec(),
        (F::root(log_m + 1) * F::root(log_m + 1)) * u_inv == F::one_spec(),
    ensures
        node_inverse(log_m, 0) == F::one_spec(),
        node_inverse(log_m, 1) == w_inv,
        forall|t: int|
            0 <= t && t + 2 <= 2 * pow2(log_m) ==> #[trigger] node_inverse(log_m, t) * u_inv == node_inverse(
                log_m,
                t + 2,
            ),
{
    let w = F::root(log_m + 1);
    let m: nat = pow2(log_m);
    lemma_pow2_pos(log_m);
    lemma_pow2_unfold(log_m + 1);
    units::lemma_root_order(log_m + 1);
    units::lemma_root_canonical(log_m + 1);
    assert(w.pow(2 * m) == F::one_spec());
    assert(w.pow(2 * m) == w.pow((2 * m - 1) as nat) * w);
    field::lemma_mul_comm(w, w.pow((2 * m - 1) as nat));
    field::lemma_pow_canonical(w, (2 * m - 1) as nat);
    lemma_inverse_unique(w, w.pow((2 * m - 1) as nat), w_inv);
    assert forall|t: int| 0 <= t && t + 2 <= 2 * m implies #[trigger] node_inverse(log_m, t) * u_inv == node_inverse(
        log_m,
        t + 2,
    ) by {
        let e: nat = (2 * m - t - 2) as nat;
        let p = w.pow(e);
        assert(w.pow(e + 2) == w.pow(e + 1) * w);
        assert(w.pow(e + 1) == p * w);
        assert((2 * m - t) as nat == e + 2);
        field::lemma_mul_assoc(p, w, w);
        field::lemma_mul_assoc(p, w * w, u_inv);
        field::lemma_pow_canonical(w, e);
        field::lemma_mul_one(p);
    }
}

/// `r^(2^k)`.
fn exp_power_of_2(r: EF, k: usize) -> (p: EF)
    requires
        k < TWO_ADICITY,
    ensures
        p == r.pow(pow2(k as nat)),
{
    let mut p = r;
    let mut i: usize = 0;
    r.assert_canonical();
    proof {
        lemma2_to64();
        reveal_with_fuel(EF::pow, 2);
        ext::lemma_mul_one(r);
    }
    while i < k
        invariant
            i <= k,
            p == r.pow(pow2(i as nat)),
        decreases k - i,
    {
        proof {
            lemma_pow2_unfold((i + 1) as nat);
            ext::lemma_pow_add(r, pow2(i as nat), pow2(i as nat));
        }
        p = p.square();
        i = i + 1;
    }
    p
}

/// The power of a ratio to half the order of the domain: that of the point, with a sign.
proof fn lemma_ratio_power(log_m: nat, r: EF, t: int)
    requires
        log_m < TWO_ADICITY,
        0 <= t < 2 * pow2(log_m),
        r.canonical(),
    ensures
        t % 2 == 0 ==> node_ratio(log_m, r, t).pow(pow2(log_m)) == r.pow(pow2(log_m)),
        t % 2 == 1 ==> node_ratio(log_m, r, t).pow(pow2(log_m)) == r.pow(pow2(log_m)).negate_spec(),
{
    let w = F::root(log_m + 1);
    let m: nat = pow2(log_m);
    let e: nat = (2 * m - t) as nat;
    units::lemma_root_half(log_m + 1);
    ext::lemma_pow_scale(r, w.pow(e), m);
    field::lemma_pow_mul(w, e, m);
    field::lemma_pow_mul(w, m, e);
    lemma_mul_is_commutative(e as int, m as int);
    assert(w.pow(e).pow(m) == w.pow(m).pow(e));
    lemma_minus_one_power(e);
    ext::lemma_pow_canonical(r, m);
    ntt::lemma_scale_one(r.pow(m));
    ext::lemma_negate_is_scale(r.pow(m));
}

proof fn lemma_minus_one_power(n: nat)
    ensures
        n % 2 == 0 ==> F::of(-1).pow(n) == F::one_spec(),
        n % 2 == 1 ==> F::of(-1).pow(n) == F::of(-1),
    decreases n,
{
    if n > 0 {
        lemma_minus_one_power((n - 1) as nat);
        field::lemma_of_mul(-1, -1);
        field::lemma_of_mul(1, -1);
    }
}

/// The weights of the two halves of a codeword in the parity check at `r`; none where the point is
/// not outside the domain.
pub fn barycentric_slices(log_m: usize, r: EF) -> (slices: Option<(Vec<EF>, Vec<EF>)>)
    requires
        log_m < TWO_ADICITY,
        pow2(log_m as nat) <= usize::MAX,
    ensures
        slices is Some <==> outside_domain(log_m as nat, r),
        slices matches Some((left, right)) ==> {
            &&& left@.len() == pow2(log_m as nat)
            &&& right@.len() == pow2(log_m as nat)
            &&& forall|j: int|
                0 <= j < pow2(log_m as nat) ==> #[trigger] left@[j] == parity_weight(log_m as nat, r, 2 * j)
            &&& forall|j: int|
                0 <= j < pow2(log_m as nat) ==> #[trigger] right@[j] == parity_weight(log_m as nat, r, 2 * j + 1)
        },
{
    let ghost l: nat = log_m as nat;
    let m: usize = arith::power_of_two(log_m);
    let w = ntt::two_adic_generator(log_m + 1);
    proof {
        units::lemma_root_primitive_nonzero(l + 1);
    }
    let u = w.mul(w);
    let u_inv = u.inverse();
    let w_inv = w.inverse();
    let _ = u_inv.as_u32();
    let _ = w_inv.as_u32();
    r.assert_canonical();
    let r_m = exp_power_of_2(r, log_m);
    let const_l = r_m.sub(EF::one());
    let const_r = r_m.add(EF::one()).negate();
    let mut left: Vec<EF> = Vec::new();
    let mut right: Vec<EF> = Vec::new();
    let mut s_l = r;
    let mut s_r = r.scale(w_inv);
    proof {
        lemma_node_inverse(l, w_inv, u_inv);
        ntt::lemma_scale_one(r);
    }
    let mut j: usize = 0;
    while j < m
        invariant
            l == log_m,
            log_m < TWO_ADICITY,
            m == pow2(l),
            j <= m,
            r.canonical(),
            r_m == r.pow(m as nat),
            const_l == r_m - EF::one_spec(),
            const_r == (r_m + EF::one_spec()).negate_spec(),
            forall|t: int|
                0 <= t && t + 2 <= 2 * pow2(l) ==> #[trigger] node_inverse(l, t) * u_inv == node_inverse(l, t + 2),
            j < m ==> s_l == node_ratio(l, r, 2 * j as int),
            j < m ==> s_r == node_ratio(l, r, 2 * j as int + 1),
            left@.len() == j,
            right@.len() == j,
            forall|i: int| 0 <= i < j ==> #[trigger] left@[i] == parity_weight(l, r, 2 * i),
            forall|i: int| 0 <= i < j ==> #[trigger] right@[i] == parity_weight(l, r, 2 * i + 1),
            forall|t: int| 0 <= t < 2 * j ==> r != #[trigger] domain_point(l, t),
        decreases m - j,
    {
        let d_l = s_l.sub(EF::one());
        let d_r = s_r.sub(EF::one());
        let ghost t: int = 2 * j as int;
        proof {
            lemma_ratio_is_one(l, r, t);
            lemma_ratio_is_one(l, r, t + 1);
        }
        let inv_l = match d_l.try_inverse() {
            Some(x) => x,
            None => {
                assert(r == domain_point(l, t));
                return None;
            },
        };
        let inv_r = match d_r.try_inverse() {
            Some(x) => x,
            None => {
                assert(r == domain_point(l, t + 1));
                return None;
            },
        };
        let q_l = const_l.mul(inv_l);
        let q_r = const_r.mul(inv_r);
        proof {
            lemma_slice(l, r, t, s_l, inv_l, const_l);
            lemma_slice(l, r, t + 1, s_r, inv_r, const_r);
        }
        left.push(q_l);
        right.push(q_r);
        s_l.assert_canonical();
        s_r.assert_canonical();
        proof {
            if j + 1 < m {
                ext::lemma_scale_scale(r, node_inverse(l, t), u_inv);
                ext::lemma_scale_scale(r, node_inverse(l, t + 1), u_inv);
                assert(node_inverse(l, t) * u_inv == node_inverse(l, t + 2));
                assert(node_inverse(l, t + 1) * u_inv == node_inverse(l, t + 1 + 2));
            }
        }
        s_l = s_l.scale(u_inv);
        s_r = s_r.scale(u_inv);
        j = j + 1;
    }
    Some((left, right))
}

/// A quotient of the parity check is the sum of the powers of the ratio.
proof fn lemma_slice(log_m: nat, r: EF, t: int, s: EF, inv: EF, c: EF)
    requires
        log_m < TWO_ADICITY,
        0 <= t < 2 * pow2(log_m),
        r.canonical(),
        s == node_ratio(log_m, r, t),
        (s - EF::one_spec()) * inv == EF::one_spec(),
        s - EF::one_spec() != EF::zero_spec(),
        t % 2 == 0 ==> c == r.pow(pow2(log_m)) - EF::one_spec(),
        t % 2 == 1 ==> c == (r.pow(pow2(log_m)) + EF::one_spec()).negate_spec(),
    ensures
        c * inv == parity_weight(log_m, r, t),
{
    let one = EF::one_spec();
    let m: nat = pow2(log_m);
    let d = s - one;
    let p = r.pow(m);
    lemma_ratio_power(log_m, r, t);
    ext::lemma_scale_canonical(r, node_inverse(log_m, t));
    lemma_geometric(s, m);
    assert(c == s.pow(m) - one) by {
        if t % 2 == 1 {
            ext::lemma_negate_add(p, one);
            ext::lemma_sub_is_add_neg(p.negate_spec(), one);
        }
    }
    let g = geometric(s, m);
    sums::lemma_sum_canonical(m, |k: int| s.pow(k as nat));
    // (g d) inv == g
    ext::lemma_mul_assoc(g, d, inv);
    ext::lemma_mul_one(g);
}

/// The sum of the multiples of `b` by the powers of a root of unity other than one is zero.
proof fn lemma_root_sum(b: EF, z: F, m: nat)
    requires
        z.canonical(),
        z != F::one_spec(),
        z.pow(m) == F::one_spec(),
    ensures
        sums::sum(m, |j: int| b.scale_spec(z.pow(j as nat))) == EF::zero_spec(),
{
    let one = EF::one_spec();
    let zero = EF::zero_spec();
    let e = EF::from_base_spec(z);
    ext::lemma_constants_canonical();
    ext::lemma_from_base_canonical(z);
    lemma_geometric(e, m);
    ext::lemma_from_base_pow(z, m);
    ext::lemma_sub_self(one);
    let d = e - one;
    ext::lemma_add_canonical(e, one);
    ext::lemma_sub_zero_iff(e, one);
    let g = geometric(e, m);
    sums::lemma_sum_canonical(m, |k: int| e.pow(k as nat));
    ext::lemma_mul_zero(d);
    lemma_quotient(g, zero, d);
    let f = |j: int| b.scale_spec(z.pow(j as nat));
    let h = |k: int| e.pow(k as nat);
    assert forall|j: int| 0 <= j < m implies #[trigger] f(j) == (|k: int| b * h(k))(j) by {
        ext::lemma_from_base_pow(z, j as nat);
        ext::lemma_scale_is_mul(b, z.pow(j as nat));
    }
    sums::lemma_sum_ext(m, f, |k: int| b * h(k));
    sums::lemma_sum_mul_left(b, m, h);
    ext::lemma_mul_zero(b);
}

/// What stands at `r^k c_i` in the product of a weight and an element of the codeword.
spec fn cross(log_m: nat, t: int, k: int, i: int) -> F {
    node_inverse(log_m, t).pow(k as nat) * F::root(log_m + 1).pow(t as nat).pow(i as nat)
}

/// The product of the weight and the element of a codeword at `t`, taken apart.
proof fn lemma_weight_times_value(log_m: nat, r: EF, c: spec_fn(int) -> EF, t: int)
    requires
        0 <= t < 2 * pow2(log_m),
    ensures
        parity_weight(log_m, r, t) * ntt::eval(pow2(log_m), c, F::root(log_m + 1).pow(t as nat)) == sums::sum(
            pow2(log_m),
            |k: int|
                sums::sum(
                    pow2(log_m),
                    |i: int| (r.pow(k as nat) * c(i)).scale_spec(cross(log_m, t, k, i)),
                ),
        ),
{
    let m: nat = pow2(log_m);
    let s = node_ratio(log_m, r, t);
    let x = F::root(log_m + 1).pow(t as nat);
    let v = |i: int| c(i).scale_spec(x.pow(i as nat));
    let value = sums::sum(m, v);
    let p = |k: int| s.pow(k as nat);
    sums::lemma_sum_mul_right(m, p, value);
    let lhs = |k: int| p(k) * value;
    let rhs = |k: int| sums::sum(m, |i: int| (r.pow(k as nat) * c(i)).scale_spec(cross(log_m, t, k, i)));
    assert forall|k: int| 0 <= k < m implies #[trigger] lhs(k) == rhs(k) by {
        sums::lemma_sum_mul_left(p(k), m, v);
        let a = |i: int| p(k) * v(i);
        let b = |i: int| (r.pow(k as nat) * c(i)).scale_spec(cross(log_m, t, k, i));
        assert forall|i: int| 0 <= i < m implies #[trigger] a(i) == b(i) by {
            let n = node_inverse(log_m, t);
            ext::lemma_pow_scale(r, n, k as nat);
            let rk = r.pow(k as nat);
            ext::lemma_mul_scale_right(rk.scale_spec(n.pow(k as nat)), c(i), x.pow(i as nat));
            ext::lemma_mul_scale_left(rk, c(i), n.pow(k as nat));
            ext::lemma_scale_scale(rk * c(i), n.pow(k as nat), x.pow(i as nat));
        }
        sums::lemma_sum_ext(m, a, b);
    }
    sums::lemma_sum_ext(m, lhs, rhs);
}

/// The factors of one pair of powers over a half of the domain: all one where the powers are the
/// same, else the multiples of one of them by the powers of a root of unity other than one.
proof fn lemma_cross_sum(log_m: nat, side: int, a: EF, k: int, i: int)
    requires
        log_m < TWO_ADICITY,
        0 <= side < 2,
        0 <= k < pow2(log_m),
        0 <= i < pow2(log_m),
        a.canonical(),
    ensures
        sums::sum(pow2(log_m), |j: int| a.scale_spec(cross(log_m, 2 * j + side, k, i))) == (if k == i {
            sums::sum(pow2(log_m), |j: int| a)
        } else {
            EF::zero_spec()
        }),
{
    let m: nat = pow2(log_m);
    let w = F::root(log_m + 1);
    let u = w * w;
    let f = |j: int| a.scale_spec(cross(log_m, 2 * j + side, k, i));
    lemma_pow2_unfold(log_m + 1);
    lemma_pow2_pos(log_m);
    units::lemma_root_order(log_m + 1);
    units::lemma_root_canonical(log_m + 1);
    if k == i {
        let g = |j: int| a;
        assert forall|j: int| 0 <= j < m implies #[trigger] f(j) == g(j) by {
            let t: int = 2 * j + side;
            field::lemma_pow_add(w, (2 * m - t) as nat, t as nat);
            assert((2 * m - t) as nat + t as nat == 2 * m);
            lemma_pow_product(node_inverse(log_m, t), w.pow(t as nat), k as nat);
            field::lemma_pow_one(k as nat);
            ntt::lemma_scale_one(a);
        }
        sums::lemma_sum_ext(m, f, g);
    } else {
        let u_inv = w.pow((2 * m - 2) as nat);
        // The inverse of the square of the generator.
        assert(u * u_inv == F::one_spec()) by {
            field::lemma_pow_add(w, 2, (2 * m - 2) as nat);
            assert((2 + (2 * m - 2)) as nat == 2 * m);
            reveal_with_fuel(F::pow, 3);
            field::lemma_mul_one(w);
        }
        let ui = u.pow(i as nat);
        let uk = u_inv.pow(k as nat);
        let z = uk * ui;
        field::lemma_of_val(uk.val() * ui.val());
        let q = cross(log_m, side, k, i);
        // Each factor is the one before it times z.
        assert forall|j: int| 0 <= j < m implies #[trigger] cross(log_m, 2 * j + side, k, i) == q * z.pow(j as nat) by {
            lemma_cross_step(log_m, side, k, i, j as nat, z);
        }
        assert(z.pow(m) == F::one_spec()) by {
            lemma_pow_product(uk, ui, m);
            field::lemma_pow_mul(u_inv, k as nat, m);
            field::lemma_pow_mul(u_inv, m, k as nat);
            lemma_mul_is_commutative(k, m as int);
            field::lemma_pow_mul(u, i as nat, m);
            field::lemma_pow_mul(u, m, i as nat);
            lemma_mul_is_commutative(i, m as int);
            // u^m and u_inv^m are one.
            field::lemma_pow_mul(w, 2, m);
            assert(w.pow(2) == u) by {
                reveal_with_fuel(F::pow, 3);
                field::lemma_mul_one(w);
            }
            assert(u.pow(m) == F::one_spec());
            lemma_pow_product(u, u_inv, m);
            field::lemma_pow_one(m);
            field::lemma_pow_canonical(u_inv, m);
            field::lemma_mul_one(u_inv.pow(m));
            assert(u_inv.pow(m) == F::one_spec());
            field::lemma_pow_one(k as nat);
            field::lemma_pow_one(i as nat);
            field::lemma_of_mul(1, 1);
        }
        assert(z != F::one_spec()) by {
            if z == F::one_spec() {
                // Then u^i is u^k.
                let v = u.pow(k as nat);
                lemma_pow_product(u, u_inv, k as nat);
                field::lemma_pow_one(k as nat);
                assert(v * uk == F::one_spec());
                field::lemma_mul_assoc(v, uk, ui);
                field::lemma_pow_canonical(u, k as nat);
                field::lemma_pow_canonical(u, i as nat);
                field::lemma_mul_one(v);
                field::lemma_mul_one(ui);
                assert(u.pow(i as nat) == u.pow(k as nat));
                assert(w.pow(2) == u) by {
                    reveal_with_fuel(F::pow, 3);
                    field::lemma_mul_one(w);
                }
                field::lemma_pow_mul(w, 2, i as nat);
                field::lemma_pow_mul(w, 2, k as nat);
                if i < k {
                    lemma_powers_differ(log_m + 1, (2 * i) as nat, (2 * k) as nat);
                } else {
                    lemma_powers_differ(log_m + 1, (2 * k) as nat, (2 * i) as nat);
                }
            }
        }
        let b = a.scale_spec(q);
        lemma_root_sum(b, z, m);
        let g = |j: int| b.scale_spec(z.pow(j as nat));
        assert forall|j: int| 0 <= j < m implies #[trigger] f(j) == g(j) by {
            assert(cross(log_m, 2 * j + side, k, i) == q * z.pow(j as nat));
            ext::lemma_scale_scale(a, q, z.pow(j as nat));
        }
        sums::lemma_sum_ext(m, f, g);
    }
}

/// Different powers of a root of unity below its order differ.
pub proof fn lemma_powers_differ(bits: nat, a: nat, b: nat)
    requires
        bits <= TWO_ADICITY,
        a < b < pow2(bits),
    ensures
        F::root(bits).pow(a) != F::root(bits).pow(b),
{
    let w = F::root(bits);
    let n: nat = pow2(bits);
    if w.pow(a) == w.pow(b) {
        let rest: nat = (n - a) as nat;
        units::lemma_root_order(bits);
        field::lemma_pow_add(w, a, rest);
        field::lemma_pow_add(w, b, rest);
        assert(a + rest == n);
        assert(b + rest == n + (b - a) as nat);
        field::lemma_pow_add(w, n, (b - a) as nat);
        field::lemma_pow_canonical(w, (b - a) as nat);
        field::lemma_mul_one(w.pow((b - a) as nat));
        units::lemma_root_primitive(bits, (b - a) as nat);
    }
}

proof fn lemma_pow_product(a: F, b: F, n: nat)
    ensures
        (a * b).pow(n) == a.pow(n) * b.pow(n),
    decreases n,
{
    if n == 0 {
        field::lemma_of_mul(1, 1);
    } else {
        let m: nat = (n - 1) as nat;
        lemma_pow_product(a, b, m);
        let x = a.pow(m);
        let y = b.pow(m);
        // (x y) (a b) == (x a) (y b)
        field::lemma_mul_assoc(x, y, a * b);
        field::lemma_mul_assoc(y, a, b);
        field::lemma_mul_comm(y, a);
        field::lemma_mul_assoc(a, y, b);
        field::lemma_mul_assoc(x, a, y * b);
    }
}

/// The factor at place `j` of a half of the domain.
proof fn lemma_cross_step(log_m: nat, side: int, k: int, i: int, j: nat, z: F)
    requires
        log_m < TWO_ADICITY,
        0 <= side < 2,
        0 <= k,
        0 <= i,
        j < pow2(log_m),
        z == F::root(log_m + 1).pow((2 * pow2(log_m) - 2) as nat).pow(k as nat) * (F::root(log_m + 1) * F::root(
            log_m + 1,
        )).pow(i as nat),
    ensures
        cross(log_m, 2 * j + side, k, i) == cross(log_m, side, k, i) * z.pow(j),
    decreases j,
{
    let m: nat = pow2(log_m);
    let w = F::root(log_m + 1);
    let u = w * w;
    let u_inv = w.pow((2 * m - 2) as nat);
    if j == 0 {
        let q = cross(log_m, side, k, i);
        field::lemma_of_val(
            node_inverse(log_m, side).pow(k as nat).val() * w.pow(side as nat).pow(i as nat).val(),
        );
        field::lemma_mul_one(q);
    } else {
        let p: nat = (j - 1) as nat;
        lemma_cross_step(log_m, side, k, i, p, z);
        let t: int = 2 * p + side;
        let a = node_inverse(log_m, t);
        let x = w.pow(t as nat);
        units::lemma_root_order(log_m + 1);
        lemma_pow2_unfold(log_m + 1);
        units::lemma_root_canonical(log_m + 1);
        // node_inverse(t + 2) == node_inverse(t) * u_inv
        assert(node_inverse(log_m, t + 2) == a * u_inv) by {
            let e: nat = (2 * m - t - 2) as nat;
            field::lemma_pow_add(w, e + 2, (2 * m - 2) as nat);
            assert(e + 2 == (2 * m - t) as nat);
            assert(e + 2 + (2 * m - 2) as nat == e + 2 * m);
            field::lemma_pow_add(w, e, 2 * m);
            field::lemma_pow_canonical(w, e);
            field::lemma_mul_one(w.pow(e));
        }
        assert(w.pow((t + 2) as nat) == x * u) by {
            assert(w.pow((t + 2) as nat) == w.pow((t + 1) as nat) * w);
            assert(w.pow((t + 1) as nat) == x * w);
            field::lemma_mul_assoc(x, w, w);
        }
        lemma_pow_product(a, u_inv, k as nat);
        lemma_pow_product(x, u, i as nat);
        let ak = a.pow(k as nat);
        let xi = x.pow(i as nat);
        let vk = u_inv.pow(k as nat);
        let ui = u.pow(i as nat);
        // (ak vk) (xi ui) == (ak xi) (vk ui)
        field::lemma_mul_assoc(ak, vk, xi * ui);
        field::lemma_mul_assoc(vk, xi, ui);
        field::lemma_mul_comm(vk, xi);
        field::lemma_mul_assoc(xi, vk, ui);
        field::lemma_mul_assoc(ak, xi, vk * ui);
        assert(cross(log_m, t + 2, k, i) == cross(log_m, t, k, i) * z);
        assert(t + 2 == 2 * j + side);
        field::lemma_mul_assoc(cross(log_m, side, k, i), z.pow(p), z);
    }
}

/// The sum, over a half of the domain, of the weights against the values of a polynomial.
pub open spec fn half_sum(log_m: nat, r: EF, c: spec_fn(int) -> EF, side: int) -> EF {
    sums::sum(
        pow2(log_m),
        |j: int|
            parity_weight(log_m, r, 2 * j + side) * ntt::eval(
                pow2(log_m),
                c,
                F::root(log_m + 1).pow((2 * j + side) as nat),
            ),
    )
}

/// What both sums come to.
pub open spec fn half_value(log_m: nat, r: EF, c: spec_fn(int) -> EF) -> EF {
    sums::sum(
        pow2(log_m),
        |k: int|
            sums::sum(
                pow2(log_m),
                |i: int|
                    if k == i {
                        sums::sum(pow2(log_m), |j: int| r.pow(k as nat) * c(i))
                    } else {
                        EF::zero_spec()
                    },
            ),
    )
}

pub proof fn lemma_half_sum(log_m: nat, r: EF, c: spec_fn(int) -> EF, side: int)
    requires
        log_m < TWO_ADICITY,
        0 <= side < 2,
    ensures
        half_sum(log_m, r, c, side) == half_value(log_m, r, c),
{
    let m: nat = pow2(log_m);
    let term = |j: int, k: int, i: int| (r.pow(k as nat) * c(i)).scale_spec(cross(log_m, 2 * j + side, k, i));
    let lhs = |j: int|
        parity_weight(log_m, r, 2 * j + side) * ntt::eval(m, c, F::root(log_m + 1).pow((2 * j + side) as nat));
    let inner = |j: int, k: int| sums::sum(m, |i: int| term(j, k, i));
    let outer = |j: int| sums::sum(m, |k: int| inner(j, k));
    assert forall|j: int| 0 <= j < m implies #[trigger] lhs(j) == outer(j) by {
        lemma_weight_times_value(log_m, r, c, 2 * j + side);
        let x = |k: int|
            sums::sum(m, |i: int| (r.pow(k as nat) * c(i)).scale_spec(cross(log_m, 2 * j + side, k, i)));
        let y = |k: int| inner(j, k);
        assert forall|k: int| 0 <= k < m implies #[trigger] x(k) == y(k) by {
            sums::lemma_sum_ext(
                m,
                |i: int| (r.pow(k as nat) * c(i)).scale_spec(cross(log_m, 2 * j + side, k, i)),
                |i: int| term(j, k, i),
            );
        }
        sums::lemma_sum_ext(m, x, y);
    }
    sums::lemma_sum_ext(m, lhs, outer);
    sums::lemma_sum_swap(m, m, inner);
    let by_k = |k: int| sums::sum(m, |j: int| inner(j, k));
    let value = |k: int|
        sums::sum(
            m,
            |i: int|
                if k == i {
                    sums::sum(m, |j: int| r.pow(k as nat) * c(i))
                } else {
                    EF::zero_spec()
                },
        );
    assert forall|k: int| 0 <= k < m implies #[trigger] by_k(k) == value(k) by {
        let tk = |j: int, i: int| term(j, k, i);
        let p = |j: int| inner(j, k);
        let q = |j: int| sums::sum(m, |i: int| tk(j, i));
        assert forall|j: int| 0 <= j < m implies #[trigger] p(j) == q(j) by {
            sums::lemma_sum_ext(m, |i: int| term(j, k, i), |i: int| tk(j, i));
        }
        sums::lemma_sum_ext(m, p, q);
        sums::lemma_sum_swap(m, m, tk);
        let a = |i: int| sums::sum(m, |j: int| tk(j, i));
        let b = |i: int|
            if k == i {
                sums::sum(m, |j: int| r.pow(k as nat) * c(i))
            } else {
                EF::zero_spec()
            };
        assert forall|i: int| 0 <= i < m implies #[trigger] a(i) == b(i) by {
            let x = r.pow(k as nat) * c(i);
            ext::lemma_mul_canonical(r.pow(k as nat), c(i));
            lemma_cross_sum(log_m, side, x, k, i);
            sums::lemma_sum_ext(
                m,
                |j: int| tk(j, i),
                |j: int| x.scale_spec(cross(log_m, 2 * j + side, k, i)),
            );
            sums::lemma_sum_ext(m, |j: int| x, |j: int| r.pow(k as nat) * c(i));
        }
        sums::lemma_sum_ext(m, a, b);
    }
    sums::lemma_sum_ext(m, by_k, value);
}

/// The even and the odd elements of a codeword give the same weighted sum, at every point.
pub proof fn law_codeword_parity(log_m: nat, r: EF, message: Seq<EF>)
    requires
        log_m < TWO_ADICITY,
        message.len() == pow2(log_m),
    ensures
        sums::sum(
            pow2(log_m),
            |j: int| parity_weight(log_m, r, 2 * j) * ntt::codeword_spec(message)[2 * j],
        ) == sums::sum(
            pow2(log_m),
            |j: int| parity_weight(log_m, r, 2 * j + 1) * ntt::codeword_spec(message)[2 * j + 1],
        ),
{
    let m: nat = pow2(log_m);
    let c = |j: int| message[j];
    let word = ntt::codeword_spec(message);
    lemma_pow2_unfold(log_m + 1);
    arith::lemma_next_pow2_of_power(log_m + 1);
    lemma_half_sum(log_m, r, c, 0);
    lemma_half_sum(log_m, r, c, 1);
    let even = |j: int| parity_weight(log_m, r, 2 * j) * word[2 * j];
    let odd = |j: int| parity_weight(log_m, r, 2 * j + 1) * word[2 * j + 1];
    let e = |j: int| parity_weight(log_m, r, 2 * j + 0) * ntt::eval(m, c, F::root(log_m + 1).pow((2 * j + 0) as nat));
    let o = |j: int| parity_weight(log_m, r, 2 * j + 1) * ntt::eval(m, c, F::root(log_m + 1).pow((2 * j + 1) as nat));
    assert forall|j: int| 0 <= j < m implies #[trigger] even(j) == e(j) by {
        assert(2 * j + 0 == 2 * j);
    }
    sums::lemma_sum_ext(m, even, e);
    sums::lemma_sum_ext(m, odd, o);
}

} // verus!
