//! What is not so is detected: words that are no codewords, and sums that are not true.
use super::air_session;
use super::air_session::DedicatedHashAirSumcheckSession;
use super::batch;
use super::linear_session;
use super::linear_session::{DenseLinearBusSession, VirtualLinearBusSession};
use super::parity;
use super::prover::Sessions;
use super::rounds;
use super::run;
use crate::arith;
use crate::ext;
use crate::ext::EF;
use crate::field;
use crate::field::{F, TWO_ADICITY};
use crate::ntt;
use crate::poly;
use crate::poly::DensePolynomial;
use crate::poseidon::PoseidonConstants;
use crate::sums;
use crate::units;
use vstd::arithmetic::power2::*;
use vstd::prelude::*;

verus! {

/// `(x - n_0) (x - n_1) ..` over the nodes.
spec fn node_product(nodes: Seq<F>, x: F) -> F
    decreases nodes.len(),
{
    if nodes.len() == 0 {
        F::one_spec()
    } else {
        node_product(nodes.drop_last(), x) * (x - nodes.last())
    }
}

/// The polynomial `(X - n_0) (X - n_1) ..`.
spec fn product_poly(nodes: Seq<F>) -> Seq<EF>
    decreases nodes.len(),
{
    if nodes.len() == 0 {
        seq![EF::one_spec()]
    } else {
        let below = product_poly(nodes.drop_last());
        poly::poly_sub(poly::poly_shift(below), poly::poly_times_base(below, nodes.last()))
    }
}

proof fn lemma_product_poly(nodes: Seq<F>, x: F)
    ensures
        product_poly(nodes).len() == nodes.len() + 1,
        poly::poly_at(product_poly(nodes), EF::from_base_spec(x)) == EF::from_base_spec(node_product(nodes, x)),
    decreases nodes.len(),
{
    let y = EF::from_base_spec(x);
    let z = EF::zero_spec();
    ext::lemma_constants_canonical();
    if nodes.len() == 0 {
        let c = seq![EF::one_spec()];
        assert(c.drop_first() =~= Seq::<EF>::empty());
        assert(poly::poly_at(Seq::<EF>::empty(), y) == z);
        ext::lemma_mul_zero(y);
        ext::lemma_add_zero(EF::one_spec());
    } else {
        let front = nodes.drop_last();
        let last = nodes.last();
        lemma_product_poly(front, x);
        let below = product_poly(front);
        let v = node_product(front, x);
        poly::lemma_at_sub(poly::poly_shift(below), poly::poly_times_base(below, last), y);
        poly::lemma_at_shift(below, y);
        poly::lemma_at_times_base(below, last, y);
        ext::lemma_from_base_ring(x, v);
        ext::lemma_from_base_ring(v, last);
        ext::lemma_from_base_ring(x * v, v * last);
        field::lemma_mul_comm(x, v);
        field::lemma_mul_distrib_sub(v, x, last);
    }
}

/// The product over nodes vanishes at each of them, and nowhere else.
proof fn lemma_node_product(nodes: Seq<F>, x: F)
    requires
        poly::distinct(nodes),
        x.canonical(),
    ensures
        node_product(nodes, x).canonical(),
        (exists|i: int| 0 <= i < nodes.len() && #[trigger] nodes[i] == x) <==> node_product(nodes, x)
            == F::zero_spec(),
    decreases nodes.len(),
{
    field::lemma_of_val(0);
    field::lemma_of_val(1);
    if nodes.len() > 0 {
        let front = nodes.drop_last();
        let last = nodes.last();
        assert(nodes[nodes.len() - 1].canonical());
        assert(poly::distinct(front)) by {
            assert forall|i: int| 0 <= i < front.len() implies (#[trigger] front[i]).canonical() by {
                assert(nodes[i].canonical());
            }
            assert forall|i: int, j: int| 0 <= i < j < front.len() implies #[trigger] front[i]
                != #[trigger] front[j] by {
                assert(nodes[i] != nodes[j]);
            }
        }
        lemma_node_product(front, x);
        let v = node_product(front, x);
        field::lemma_of_val(x.val() - last.val());
        field::lemma_of_val(v.val() * (x - last).val());
        if x == last {
            assert(nodes[nodes.len() - 1] == x);
            field::lemma_sub_zero_iff(x, last);
            field::lemma_mul_zero(v);
        } else {
            field::lemma_sub_zero_iff(x, last);
            if v == F::zero_spec() {
                let i = choose|i: int| 0 <= i < front.len() && #[trigger] front[i] == x;
                assert(nodes[i] == x);
                field::lemma_mul_comm(v, x - last);
                field::lemma_mul_zero(x - last);
            } else {
                poly::lemma_product_nonzero(v, x - last);
                if exists|i: int| 0 <= i < nodes.len() && #[trigger] nodes[i] == x {
                    let i = choose|i: int| 0 <= i < nodes.len() && #[trigger] nodes[i] == x;
                    assert(front[i] == x);
                }
            }
        }
    }
}

/// Some polynomial with as many coefficients as there are nodes takes given values at them.
pub proof fn lemma_interpolation_exists(nodes: Seq<F>, values: Seq<EF>) -> (c: Seq<EF>)
    requires
        poly::distinct(nodes),
        values.len() == nodes.len(),
        forall|i: int| 0 <= i < values.len() ==> (#[trigger] values[i]).canonical(),
    ensures
        c.len() == nodes.len(),
        forall|i: int| 0 <= i < c.len() ==> (#[trigger] c[i]).canonical(),
        forall|i: int|
            0 <= i < nodes.len() ==> poly::poly_at(c, EF::from_base_spec(#[trigger] nodes[i])) == values[i],
    decreases nodes.len(),
{
    if nodes.len() == 0 {
        Seq::empty()
    } else {
        let front = nodes.drop_last();
        let last = nodes.last();
        let n: int = nodes.len() - 1;
        assert(nodes[n].canonical());
        assert(poly::distinct(front)) by {
            assert forall|i: int| 0 <= i < front.len() implies (#[trigger] front[i]).canonical() by {
                assert(nodes[i].canonical());
            }
            assert forall|i: int, j: int| 0 <= i < j < front.len() implies #[trigger] front[i]
                != #[trigger] front[j] by {
                assert(nodes[i] != nodes[j]);
            }
        }
        let p = lemma_interpolation_exists(front, values.drop_last());
        let w = product_poly(front);
        let d = node_product(front, last);
        lemma_node_product(front, last);
        lemma_product_poly(front, last);
        assert(d != F::zero_spec()) by {
            if exists|i: int| 0 <= i < front.len() && #[trigger] front[i] == last {
                let i = choose|i: int| 0 <= i < front.len() && #[trigger] front[i] == last;
                assert(nodes[i] != nodes[n]);
            }
        }
        let u = units::lemma_inverse_exists(d);
        let at = poly::poly_at(p, EF::from_base_spec(last));
        let t = (values[n] - at).scale_spec(u);
        let c = poly::poly_add(p, poly::poly_times(t, w));
        assert forall|i: int| 0 <= i < nodes.len() implies poly::poly_at(c, EF::from_base_spec(#[trigger] nodes[i]))
            == values[i] by {
            let x = EF::from_base_spec(nodes[i]);
            poly::lemma_at_add(p, poly::poly_times(t, w), x);
            poly::lemma_at_times(t, w, x);
            lemma_product_poly(front, nodes[i]);
            assert(nodes[i].canonical());
            if i < n {
                assert(front[i] == nodes[i]);
                lemma_node_product(front, nodes[i]);
                ext::lemma_mul_zero(t);
                poly::lemma_at_canonical(p, x);
                ext::lemma_add_zero(poly::poly_at(p, x));
                assert(values.drop_last()[i] == values[i]);
            } else {
                ext::lemma_scale_is_mul(t, d);
                ext::lemma_scale_scale(values[n] - at, u, d);
                field::lemma_mul_comm(d, u);
                poly::lemma_at_canonical(p, x);
                ext::lemma_add_canonical(values[n], at);
                ntt::lemma_scale_one(values[n] - at);
                ext::lemma_sub_add_cancel(values[n], at);
                ext::lemma_add_comm(values[n] - at, at);
            }
        }
        assert forall|i: int| 0 <= i < c.len() implies (#[trigger] c[i]).canonical() by {
            ext::lemma_add_canonical(poly::coefficient(p, i), poly::coefficient(poly::poly_times(t, w), i));
        }
        c
    }
}

/// The value of a polynomial as a sum of powers.
pub proof fn lemma_at_is_sum(c: Seq<EF>, x: EF)
    requires
        forall|i: int| 0 <= i < c.len() ==> (#[trigger] c[i]).canonical(),
    ensures
        poly::poly_at(c, x) == sums::sum(c.len(), |j: int| x.pow(j as nat) * c[j]),
    decreases c.len(),
{
    let n: nat = c.len();
    let f = |j: int| x.pow(j as nat) * c[j];
    if n > 0 {
        let t = c.drop_first();
        lemma_at_is_sum(t, x);
        let g = |j: int| x.pow(j as nat) * t[j];
        let h = |j: int| f(1 + j);
        let xg = |j: int| x * g(j);
        assert(c[0].canonical());
        ext::lemma_mul_one(c[0]);
        assert(f(0) == c[0]);
        sums::lemma_sum_first(n, f);
        assert forall|j: int| 0 <= j < n - 1 implies #[trigger] h(j) == xg(j) by {
            let p = x.pow(j as nat);
            assert(x.pow((j + 1) as nat) == p * x);
            ext::lemma_mul_comm(p, x);
            ext::lemma_mul_assoc(x, p, t[j]);
        }
        sums::lemma_sum_ext((n - 1) as nat, h, xg);
        sums::lemma_sum_mul_left(x, (n - 1) as nat, g);
    }
}

/// The value of a polynomial at a point of the base field.
pub proof fn lemma_eval_is_at(c: Seq<EF>, x: F)
    requires
        forall|i: int| 0 <= i < c.len() ==> (#[trigger] c[i]).canonical(),
    ensures
        ntt::eval(c.len(), |j: int| c[j], x) == poly::poly_at(c, EF::from_base_spec(x)),
{
    let y = EF::from_base_spec(x);
    lemma_at_is_sum(c, y);
    let f = |j: int| (|j: int| c[j])(j).scale_spec(x.pow(j as nat));
    let g = |j: int| y.pow(j as nat) * c[j];
    assert forall|j: int| 0 <= j < c.len() implies #[trigger] f(j) == g(j) by {
        ext::lemma_from_base_pow(x, j as nat);
        ext::lemma_mul_comm(y.pow(j as nat), c[j]);
        ext::lemma_scale_is_mul(c[j], x.pow(j as nat));
    }
    sums::lemma_sum_ext(c.len(), f, g);
}

/// The sum of `n` equal terms.
proof fn lemma_sum_const(n: nat, x: EF)
    requires
        x.canonical(),
    ensures
        sums::sum(n, |j: int| x) == x.scale_spec(F::of(n as int)),
    decreases n,
{
    let f = |j: int| x;
    if n == 0 {
        ext::lemma_scale_zero(x);
    } else {
        lemma_sum_const((n - 1) as nat, x);
        field::lemma_of_add(n - 1, 1);
        ext::lemma_scale_scalar_add(x, F::of(n - 1), F::of(1));
        ntt::lemma_scale_one(x);
    }
}

/// The sum, over a half of the domain, of the weights against the values of a polynomial is a
/// multiple of its value at the point.
proof fn lemma_half_is_value(log_m: nat, r: EF, c: Seq<EF>, side: int)
    requires
        log_m < TWO_ADICITY,
        c.len() == pow2(log_m),
        forall|i: int| 0 <= i < c.len() ==> (#[trigger] c[i]).canonical(),
        0 <= side < 2,
    ensures
        parity::half_sum(log_m, r, |j: int| c[j], side) == poly::poly_at(c, r).scale_spec(F::of(pow2(log_m) as int)),
{
    let m: nat = pow2(log_m);
    let k = F::of(m as int);
    let v = |j: int| c[j];
    parity::lemma_half_sum(log_m, r, v, side);
    let term = |i: int| r.pow(i as nat) * c[i];
    let value = |k: int|
        sums::sum(
            m,
            |i: int|
                if k == i {
                    sums::sum(m, |j: int| r.pow(k as nat) * v(i))
                } else {
                    EF::zero_spec()
                },
        );
    let scaled = |i: int| term(i).scale_spec(k);
    assert forall|i: int| 0 <= i < m implies #[trigger] value(i) == scaled(i) by {
        let inner = |l: int|
            if i == l {
                sums::sum(m, |j: int| r.pow(i as nat) * v(l))
            } else {
                EF::zero_spec()
            };
        let x = term(i);
        ext::lemma_mul_canonical(r.pow(i as nat), c[i]);
        sums::lemma_sum_canonical(m, |j: int| r.pow(i as nat) * v(i));
        sums::lemma_sum_single(m, i, inner);
        sums::lemma_sum_ext(m, |j: int| r.pow(i as nat) * v(i), |j: int| x);
        lemma_sum_const(m, x);
    }
    sums::lemma_sum_ext(m, value, scaled);
    sums::lemma_sum_scale(m, term, k);
    lemma_at_is_sum(c, r);
}

/// The nodes of a half of the domain.
spec fn half_nodes(log_m: nat, side: int) -> Seq<F> {
    Seq::new(pow2(log_m), |j: int| F::root(log_m + 1).pow((2 * j + side) as nat))
}

proof fn lemma_half_nodes(log_m: nat, side: int)
    requires
        log_m < TWO_ADICITY,
        0 <= side < 2,
    ensures
        poly::distinct(half_nodes(log_m, side)),
{
    let nodes = half_nodes(log_m, side);
    let w = F::root(log_m + 1);
    lemma_pow2_unfold(log_m + 1);
    units::lemma_root_canonical(log_m + 1);
    assert forall|i: int| 0 <= i < nodes.len() implies (#[trigger] nodes[i]).canonical() by {
        field::lemma_pow_canonical(w, (2 * i + side) as nat);
    }
    assert forall|i: int, j: int| 0 <= i < j < nodes.len() implies #[trigger] nodes[i] != #[trigger] nodes[j] by {
        parity::lemma_powers_differ(log_m + 1, (2 * i + side) as nat, (2 * j + side) as nat);
    }
}

/// The polynomial through a half of a word, and its multiple that the half is weighed to.
proof fn lemma_half_poly(log_m: nat, word: Seq<EF>, side: int) -> (c: Seq<EF>)
    requires
        log_m < TWO_ADICITY,
        word.len() == 2 * pow2(log_m),
        forall|i: int| 0 <= i < word.len() ==> (#[trigger] word[i]).canonical(),
        0 <= side < 2,
    ensures
        c.len() == pow2(log_m),
        forall|i: int| 0 <= i < c.len() ==> (#[trigger] c[i]).canonical(),
        forall|j: int|
            0 <= j < pow2(log_m) ==> poly::poly_at(
                c,
                EF::from_base_spec(#[trigger] half_nodes(log_m, side)[j]),
            ) == word[2 * j + side],
        forall|r: EF| #[trigger]
            parity::half_check(log_m, r, word, side) == poly::poly_at(c, r).scale_spec(F::of(pow2(log_m) as int)),
{
    let m: nat = pow2(log_m);
    let nodes = half_nodes(log_m, side);
    lemma_half_nodes(log_m, side);
    let values = Seq::new(m, |j: int| word[2 * j + side]);
    assert forall|i: int| 0 <= i < values.len() implies (#[trigger] values[i]).canonical() by {
        assert(word[2 * i + side].canonical());
    }
    let c = lemma_interpolation_exists(nodes, values);
    assert forall|j: int| 0 <= j < m implies poly::poly_at(c, EF::from_base_spec(#[trigger] nodes[j]))
        == word[2 * j + side] by {
        assert(values[j] == word[2 * j + side]);
    }
    let v = |j: int| c[j];
    assert forall|r: EF| #[trigger] parity::half_check(log_m, r, word, side) == poly::poly_at(c, r).scale_spec(
        F::of(m as int),
    ) by {
        lemma_half_is_value(log_m, r, c, side);
        let a = |j: int| parity::parity_weight(log_m, r, 2 * j + side) * word[2 * j + side];
        let b = |j: int|
            parity::parity_weight(log_m, r, 2 * j + side) * ntt::eval(
                m,
                v,
                F::root(log_m + 1).pow((2 * j + side) as nat),
            );
        assert forall|j: int| 0 <= j < m implies #[trigger] a(j) == b(j) by {
            lemma_eval_is_at(c, nodes[j]);
            assert(poly::poly_at(c, EF::from_base_spec(nodes[j])) == word[2 * j + side]);
        }
        sums::lemma_sum_ext(m, a, b);
    }
    c
}

/// A word that passes the parity check at as many points as a message has elements is a codeword: a
/// word that is none fails at one of them.
pub proof fn law_parity_detects(log_m: nat, word: Seq<EF>, points: Seq<EF>) -> (message: Seq<EF>)
    requires
        log_m < TWO_ADICITY,
        word.len() == 2 * pow2(log_m),
        forall|i: int| 0 <= i < word.len() ==> (#[trigger] word[i]).canonical(),
        points.len() == pow2(log_m),
        poly::apart(points),
        forall|i: int|
            0 <= i < points.len() ==> parity::half_check(log_m, #[trigger] points[i], word, 0) == parity::half_check(
                log_m,
                points[i],
                word,
                1,
            ),
    ensures
        message.len() == pow2(log_m),
        word == ntt::codeword_spec(message),
{
    let m: nat = pow2(log_m);
    let k = F::of(m as int);
    let a = lemma_half_poly(log_m, word, 0);
    let b = lemma_half_poly(log_m, word, 1);
    lemma_pow2_unfold(log_m + 1);
    arith::lemma_next_pow2_of_power(log_m + 1);
    arith::lemma_pow2_monotone(log_m, TWO_ADICITY as nat);
    lemma_pow2_pos(log_m);
    lemma2_to64();
    field::lemma_of_val(m as int);
    field::lemma_of_val(0);
    assert(k != F::zero_spec()) by {
        vstd::arithmetic::div_mod::lemma_small_mod(m, field::MODULUS as nat);
    }
    let u = units::lemma_inverse_exists(k);
    assert forall|i: int| 0 <= i < points.len() implies poly::poly_at(a, #[trigger] points[i]) == poly::poly_at(
        b,
        points[i],
    ) by {
        let r = points[i];
        assert(parity::half_check(log_m, points[i], word, 0) == parity::half_check(log_m, points[i], word, 1));
        let (x, y) = (poly::poly_at(a, r), poly::poly_at(b, r));
        poly::lemma_at_canonical(a, r);
        poly::lemma_at_canonical(b, r);
        ext::lemma_scale_scale(x, k, u);
        ext::lemma_scale_scale(y, k, u);
        ntt::lemma_scale_one(x);
        ntt::lemma_scale_one(y);
    }
    let w = F::root(log_m + 1);
    let code = ntt::codeword_spec(a);
    assert forall|t: int| 0 <= t < 2 * m implies word[t] == code[t] by {
        let j: int = t / 2;
        let x = w.pow(t as nat);
        lemma_eval_is_at(a, x);
        if t % 2 == 0 {
            assert(half_nodes(log_m, 0)[j] == w.pow((2 * j + 0) as nat));
            assert(t == 2 * j + 0);
        } else {
            assert(half_nodes(log_m, 1)[j] == w.pow((2 * j + 1) as nat));
            assert(t == 2 * j + 1);
            poly::law_agreement_is_everywhere(a, b, points, EF::from_base_spec(x));
        }
    }
    assert(word =~= code);
    a
}

/// A false sum of the hash session is caught: a polynomial that takes the values that the sum
/// claims differs from the round at one of any ten points.
pub proof fn law_false_hash_sum_is_caught(
    k: PoseidonConstants,
    s: DedicatedHashAirSumcheckSession,
    p: DensePolynomial,
    points: Seq<EF>,
)
    requires
        s.shaped(),
        s.rounds_done < s.initial_n_vars,
        forall|c: int, i: int|
            0 <= c < 92 && 0 <= i < s.multilinears@[c]@.len() ==> (#[trigger] s.multilinears@[c]@[i]).canonical(),
        s.sum != s.claim(k),
        p.coeffs@.len() <= 10,
        run::weighted_ends(p, s.eq_factor@.last()) == s.sum,
        points.len() == 10,
        poly::apart(points),
    ensures
        exists|i: int|
            0 <= i < 10 && poly::poly_at(p.coeffs@, #[trigger] points[i]) != s.round_at(k, points[i]),
{
    if forall|i: int| 0 <= i < 10 ==> poly::poly_at(p.coeffs@, #[trigger] points[i]) == s.round_at(k, points[i]) {
        let q = air_session::session_poly(s, k);
        let z = EF::zero_spec();
        let one = EF::one_spec();
        air_session::lemma_session_poly(s, k, z);
        air_session::lemma_session_poly(s, k, one);
        assert forall|i: int| 0 <= i < points.len() implies poly::poly_at(p.coeffs@, #[trigger] points[i])
            == poly::poly_at(q, points[i]) by {
            air_session::lemma_session_poly(s, k, points[i]);
        }
        poly::law_agreement_is_everywhere(p.coeffs@, q, points, z);
        poly::law_agreement_is_everywhere(p.coeffs@, q, points, one);
        air_session::lemma_claim_of_round(s, k);
        assert(false);
    }
}

/// The claim of a linear session from a polynomial that agrees with its round at three points.
proof fn lemma_linear_sum(
    m: nat,
    n: nat,
    v: spec_fn(int, int) -> EF,
    c: spec_fn(int, int) -> EF,
    missing: EF,
    p: DensePolynomial,
    points: Seq<EF>,
)
    requires
        n > 0,
        forall|s: int, i: int| 0 <= s < m && 0 <= i < pow2(n) ==> (#[trigger] v(s, i)).canonical(),
        forall|s: int, i: int| 0 <= s < m && 0 <= i < pow2(n) ==> (#[trigger] c(s, i)).canonical(),
        p.coeffs@.len() <= 3,
        points.len() == 3,
        poly::apart(points),
        forall|i: int|
            0 <= i < 3 ==> poly::poly_at(p.coeffs@, #[trigger] points[i]) == linear_session::claim_weight(
                (n - 1) as nat,
                missing,
            ) * rounds::product_round(m, pow2((n - 1) as nat), v, c, points[i]),
    ensures
        run::weighted_ends(p, rounds::half()) == linear_session::claim_weight(n, missing) * rounds::product_sum(
            m,
            pow2(n),
            v,
            c,
        ),
{
    let w = linear_session::claim_weight((n - 1) as nat, missing);
    let pairs = pow2((n - 1) as nat);
    let q = rounds::round_poly(m, pairs, v, c, w);
    let z = EF::zero_spec();
    let one = EF::one_spec();
    rounds::lemma_round_poly(m, pairs, v, c, w, z);
    rounds::lemma_round_poly(m, pairs, v, c, w, one);
    assert forall|i: int| 0 <= i < points.len() implies poly::poly_at(p.coeffs@, #[trigger] points[i])
        == poly::poly_at(q, points[i]) by {
        rounds::lemma_round_poly(m, pairs, v, c, w, points[i]);
    }
    poly::law_agreement_is_everywhere(p.coeffs@, q, points, z);
    poly::law_agreement_is_everywhere(p.coeffs@, q, points, one);
    linear_session::lemma_round_claim(m, n, v, c, missing);
    run::lemma_half_ends(p);
}

/// A false sum of the session of cell links is caught: a polynomial that takes the values that the
/// sum claims differs from the round at one of any three points.
pub proof fn law_false_cell_link_sum_is_caught(s: DenseLinearBusSession, p: DensePolynomial, points: Seq<EF>)
    requires
        s.wf(),
        s.current_n_vars > 0,
        forall|t: int, i: int|
            0 <= t < s.values@.len() && 0 <= i < s.values@[t]@.len() ==> (#[trigger] s.values@[t]@[i]).canonical(),
        forall|t: int, i: int|
            0 <= t < s.coefficients@.len() && 0 <= i < s.coefficients@[t]@.len() ==> (
            #[trigger] s.coefficients@[t]@[i]).canonical(),
        s.sum != s.claim(),
        p.coeffs@.len() <= 3,
        run::weighted_ends(p, rounds::half()) == s.sum,
        points.len() == 3,
        poly::apart(points),
    ensures
        exists|i: int| 0 <= i < 3 && poly::poly_at(p.coeffs@, #[trigger] points[i]) != s.round_at(points[i]),
{
    if forall|i: int| 0 <= i < 3 ==> poly::poly_at(p.coeffs@, #[trigger] points[i]) == s.round_at(points[i]) {
        let v = linear_session::column_values(s.values@);
        let c = linear_session::column_values(s.coefficients@);
        let n: nat = s.current_n_vars as nat;
        assert forall|t: int, i: int| 0 <= t < s.values@.len() && 0 <= i < pow2(n) implies (
        #[trigger] v(t, i)).canonical() by {
            assert(s.values@[t]@[i].canonical());
        }
        assert forall|t: int, i: int| 0 <= t < s.values@.len() && 0 <= i < pow2(n) implies (
        #[trigger] c(t, i)).canonical() by {
            assert(s.coefficients@[t]@[i].canonical());
        }
        lemma_linear_sum(s.values@.len(), n, v, c, s.missing_mul_factor, p, points);
        assert(false);
    }
}

/// The values of sparse coefficients are canonical.
proof fn lemma_sparse_canonical(s: VirtualLinearBusSession, n: nat)
    ensures
        forall|t: int, i: int|
            0 <= t < s.values@.len() && 0 <= i < pow2(n) ==> (#[trigger] linear_session::sparse_values(
                s.coefficients@,
            )(t, i)).canonical(),
{
    let c = linear_session::sparse_values(s.coefficients@);
    assert forall|t: int, i: int| 0 <= t < s.values@.len() && 0 <= i < pow2(n) implies (
    #[trigger] c(t, i)).canonical() by {
        let column = s.coefficients@[t]@;
        let f = |l: int|
            if column[l].row == i {
                column[l].coeff
            } else {
                EF::zero_spec()
            };
        sums::lemma_sum_canonical(column.len(), f);
        assert(c(t, i) == sums::sum(column.len(), f));
    }
}

/// A false sum of the session of the mixed claim is caught, as one of cell links is.
pub proof fn law_false_mixed_sum_is_caught(s: VirtualLinearBusSession, p: DensePolynomial, points: Seq<EF>)
    requires
        s.wf(),
        s.current_n_vars > 0,
        forall|t: int, i: int|
            0 <= t < s.values@.len() && 0 <= i < s.values@[t]@.len() ==> (#[trigger] s.values@[t]@[i]).canonical(),
        s.sum != s.claim(),
        p.coeffs@.len() <= 3,
        run::weighted_ends(p, rounds::half()) == s.sum,
        points.len() == 3,
        poly::apart(points),
    ensures
        exists|i: int| 0 <= i < 3 && poly::poly_at(p.coeffs@, #[trigger] points[i]) != s.round_at(points[i]),
{
    if forall|i: int| 0 <= i < 3 ==> poly::poly_at(p.coeffs@, #[trigger] points[i]) == s.round_at(points[i]) {
        let v = linear_session::column_values(s.values@);
        let c = linear_session::sparse_values(s.coefficients@);
        let n: nat = s.current_n_vars as nat;
        assert forall|t: int, i: int| 0 <= t < s.values@.len() && 0 <= i < pow2(n) implies (
        #[trigger] v(t, i)).canonical() by {
            assert(s.values@[t]@[i].canonical());
        }
        lemma_sparse_canonical(s, n);
        lemma_linear_sum(s.values@.len(), n, v, c, s.missing_mul_factor, p, points);
        assert(false);
    }
}

/// The round of the sessions at `x`, with the factors of the equality polynomial and mixed by `eta`.
pub open spec fn batch_round_at(k: PoseidonConstants, s: Sessions, eta: EF, x: EF) -> EF {
    let step = rounds::eq_step(rounds::half(), x);
    s.air.round_at(k, x) * rounds::eq_step(s.air.eq_factor@.last(), x) + eta * (s.cell_link.round_at(x) * step) + eta
        * eta * (s.linear.round_at(x) * step)
}

/// The sums that the sessions are about, mixed by `eta`.
pub open spec fn batch_claim(k: PoseidonConstants, s: Sessions, eta: EF) -> EF {
    s.air.claim(k) + eta * s.cell_link.claim() + eta * eta * s.linear.claim()
}

/// The values of a linear round at zero and one, with the factor of the equality polynomial.
proof fn lemma_linear_ends(
    m: nat,
    n: nat,
    v: spec_fn(int, int) -> EF,
    c: spec_fn(int, int) -> EF,
    missing: EF,
)
    requires
        n > 0,
        forall|s: int, i: int| 0 <= s < m && 0 <= i < pow2(n) ==> (#[trigger] v(s, i)).canonical(),
        forall|s: int, i: int| 0 <= s < m && 0 <= i < pow2(n) ==> (#[trigger] c(s, i)).canonical(),
    ensures
        ({
            let half = rounds::half();
            let w = linear_session::claim_weight((n - 1) as nat, missing);
            let pairs = pow2((n - 1) as nat);
            let r0 = w * rounds::product_round(m, pairs, v, c, EF::zero_spec());
            let r1 = w * rounds::product_round(m, pairs, v, c, EF::one_spec());
            r0 * rounds::eq_step(half, EF::zero_spec()) + r1 * rounds::eq_step(half, EF::one_spec())
                == linear_session::claim_weight(n, missing) * rounds::product_sum(m, pow2(n), v, c)
        }),
{
    let half = rounds::half();
    let w = linear_session::claim_weight((n - 1) as nat, missing);
    let pairs = pow2((n - 1) as nat);
    let p0 = rounds::product_round(m, pairs, v, c, EF::zero_spec());
    let p1 = rounds::product_round(m, pairs, v, c, EF::one_spec());
    ext::lemma_mul_canonical(w, p0);
    ext::lemma_mul_canonical(w, p1);
    batch::lemma_step_ends(half, w * p0);
    batch::lemma_step_ends(half, w * p1);
    rounds::lemma_half();
    ext::lemma_mul_distrib_right(half, w * p0, w * p1);
    linear_session::lemma_round_claim(m, n, v, c, missing);
}

/// A false sum of the batch is caught: a polynomial that a round with that sum can send differs from
/// the round of the sessions at one of any eleven points.
pub proof fn law_false_batch_sum_is_caught(
    k: PoseidonConstants,
    s: Sessions,
    eta: EF,
    sum: EF,
    p: DensePolynomial,
    points: Seq<EF>,
)
    requires
        run::live(k, s),
        forall|c: int, i: int|
            0 <= c < 92 && 0 <= i < s.air.multilinears@[c]@.len() ==> (
            #[trigger] s.air.multilinears@[c]@[i]).canonical(),
        forall|t: int, i: int|
            0 <= t < s.cell_link.values@.len() && 0 <= i < s.cell_link.values@[t]@.len() ==> (
            #[trigger] s.cell_link.values@[t]@[i]).canonical(),
        forall|t: int, i: int|
            0 <= t < s.cell_link.coefficients@.len() && 0 <= i < s.cell_link.coefficients@[t]@.len() ==> (
            #[trigger] s.cell_link.coefficients@[t]@[i]).canonical(),
        forall|t: int, i: int|
            0 <= t < s.linear.values@.len() && 0 <= i < s.linear.values@[t]@.len() ==> (
            #[trigger] s.linear.values@[t]@[i]).canonical(),
        sum != batch_claim(k, s, eta),
        batch::round_holds(p, sum),
        points.len() == 11,
        poly::apart(points),
    ensures
        exists|i: int|
            0 <= i < 11 && poly::poly_at(p.coeffs@, #[trigger] points[i]) != batch_round_at(k, s, eta, points[i]),
{
    if forall|i: int|
        0 <= i < 11 ==> poly::poly_at(p.coeffs@, #[trigger] points[i]) == batch_round_at(k, s, eta, points[i]) {
        let z = EF::zero_spec();
        let one = EF::one_spec();
        let alpha = s.air.eq_factor@.last();
        let half = rounds::half();
        let cell_poly = rounds::round_poly(
            s.cell_link.values@.len(),
            pow2((s.cell_link.current_n_vars - 1) as nat),
            linear_session::column_values(s.cell_link.values@),
            linear_session::column_values(s.cell_link.coefficients@),
            linear_session::claim_weight((s.cell_link.current_n_vars - 1) as nat, s.cell_link.missing_mul_factor),
        );
        let linear_poly = rounds::round_poly(
            s.linear.values@.len(),
            pow2((s.linear.current_n_vars - 1) as nat),
            linear_session::column_values(s.linear.values@),
            linear_session::sparse_values(s.linear.coefficients@),
            linear_session::claim_weight((s.linear.current_n_vars - 1) as nat, s.linear.missing_mul_factor),
        );
        let air_poly = air_session::session_poly(s.air, k);
        let a = batch::step_poly(alpha, air_poly);
        let b = batch::step_poly(half, cell_poly);
        let c = batch::step_poly(half, linear_poly);
        let ab = poly::poly_add(a, poly::poly_times(eta, b));
        let q = poly::poly_add(ab, poly::poly_times(eta * eta, c));
        assert forall|x: EF| #[trigger] poly::poly_at(q, x) == batch_round_at(k, s, eta, x) by {
            poly::lemma_at_add(ab, poly::poly_times(eta * eta, c), x);
            poly::lemma_at_times(eta * eta, c, x);
            poly::lemma_at_add(a, poly::poly_times(eta, b), x);
            poly::lemma_at_times(eta, b, x);
            lemma_batch_parts(k, s, x);
            batch::lemma_step_poly(alpha, air_poly, x);
            batch::lemma_step_poly(half, cell_poly, x);
            batch::lemma_step_poly(half, linear_poly, x);
        }
        lemma_batch_parts(k, s, z);
        assert(q.len() <= 11);
        assert forall|i: int| 0 <= i < points.len() implies poly::poly_at(p.coeffs@, #[trigger] points[i])
            == poly::poly_at(q, points[i]) by {
        }
        poly::law_agreement_is_everywhere(p.coeffs@, q, points, z);
        poly::law_agreement_is_everywhere(p.coeffs@, q, points, one);
        lemma_batch_ends(k, s, eta);
        assert(false);
    }
}

/// The rounds of the sessions as polynomials.
proof fn lemma_batch_parts(k: PoseidonConstants, s: Sessions, x: EF)
    requires
        s.air.multilinears@.len() == 92,
    ensures
        ({
            let v = linear_session::column_values(s.cell_link.values@);
            let c = linear_session::column_values(s.cell_link.coefficients@);
            let n = (s.cell_link.current_n_vars - 1) as nat;
            let w = linear_session::claim_weight(n, s.cell_link.missing_mul_factor);
            let q = rounds::round_poly(s.cell_link.values@.len(), pow2(n), v, c, w);
            poly::poly_at(q, x) == s.cell_link.round_at(x) && q.len() <= 3
        }),
        ({
            let v = linear_session::column_values(s.linear.values@);
            let c = linear_session::sparse_values(s.linear.coefficients@);
            let n = (s.linear.current_n_vars - 1) as nat;
            let w = linear_session::claim_weight(n, s.linear.missing_mul_factor);
            let q = rounds::round_poly(s.linear.values@.len(), pow2(n), v, c, w);
            poly::poly_at(q, x) == s.linear.round_at(x) && q.len() <= 3
        }),
        poly::poly_at(air_session::session_poly(s.air, k), x) == s.air.round_at(k, x),
        air_session::session_poly(s.air, k).len() <= 10,
{
    air_session::lemma_session_poly(s.air, k, x);
    let n = (s.cell_link.current_n_vars - 1) as nat;
    rounds::lemma_round_poly(
        s.cell_link.values@.len(),
        pow2(n),
        linear_session::column_values(s.cell_link.values@),
        linear_session::column_values(s.cell_link.coefficients@),
        linear_session::claim_weight(n, s.cell_link.missing_mul_factor),
        x,
    );
    let n = (s.linear.current_n_vars - 1) as nat;
    rounds::lemma_round_poly(
        s.linear.values@.len(),
        pow2(n),
        linear_session::column_values(s.linear.values@),
        linear_session::sparse_values(s.linear.coefficients@),
        linear_session::claim_weight(n, s.linear.missing_mul_factor),
        x,
    );
}

/// The rounds of the linear sessions at zero and one add up to what the sessions are about.
pub proof fn lemma_session_ends(s: Sessions)
    requires
        s.cell_link.wf(),
        s.cell_link.current_n_vars > 0,
        s.linear.wf(),
        s.linear.current_n_vars > 0,
        forall|t: int, i: int|
            0 <= t < s.cell_link.values@.len() && 0 <= i < s.cell_link.values@[t]@.len() ==> (
            #[trigger] s.cell_link.values@[t]@[i]).canonical(),
        forall|t: int, i: int|
            0 <= t < s.cell_link.coefficients@.len() && 0 <= i < s.cell_link.coefficients@[t]@.len() ==> (
            #[trigger] s.cell_link.coefficients@[t]@[i]).canonical(),
        forall|t: int, i: int|
            0 <= t < s.linear.values@.len() && 0 <= i < s.linear.values@[t]@.len() ==> (
            #[trigger] s.linear.values@[t]@[i]).canonical(),
    ensures
        s.cell_link.round_at(EF::zero_spec()) * rounds::eq_step(rounds::half(), EF::zero_spec())
            + s.cell_link.round_at(EF::one_spec()) * rounds::eq_step(rounds::half(), EF::one_spec())
            == s.cell_link.claim(),
        s.linear.round_at(EF::zero_spec()) * rounds::eq_step(rounds::half(), EF::zero_spec()) + s.linear.round_at(
            EF::one_spec(),
        ) * rounds::eq_step(rounds::half(), EF::one_spec()) == s.linear.claim(),
{
    let v = linear_session::column_values(s.cell_link.values@);
    let c = linear_session::column_values(s.cell_link.coefficients@);
    let n: nat = s.cell_link.current_n_vars as nat;
    assert forall|t: int, i: int| 0 <= t < s.cell_link.values@.len() && 0 <= i < pow2(n) implies (
    #[trigger] v(t, i)).canonical() by {
        assert(s.cell_link.values@[t]@[i].canonical());
    }
    assert forall|t: int, i: int| 0 <= t < s.cell_link.values@.len() && 0 <= i < pow2(n) implies (
    #[trigger] c(t, i)).canonical() by {
        assert(s.cell_link.coefficients@[t]@[i].canonical());
    }
    lemma_linear_ends(s.cell_link.values@.len(), n, v, c, s.cell_link.missing_mul_factor);
    let v = linear_session::column_values(s.linear.values@);
    let c = linear_session::sparse_values(s.linear.coefficients@);
    let n: nat = s.linear.current_n_vars as nat;
    assert forall|t: int, i: int| 0 <= t < s.linear.values@.len() && 0 <= i < pow2(n) implies (
    #[trigger] v(t, i)).canonical() by {
        assert(s.linear.values@[t]@[i].canonical());
    }
    lemma_sparse_canonical(s.linear, n);
    lemma_linear_ends(s.linear.values@.len(), n, v, c, s.linear.missing_mul_factor);
}

/// The round of the sessions at zero and one adds up to the mixed sums.
proof fn lemma_batch_ends(k: PoseidonConstants, s: Sessions, eta: EF)
    requires
        run::live(k, s),
        forall|c: int, i: int|
            0 <= c < 92 && 0 <= i < s.air.multilinears@[c]@.len() ==> (
            #[trigger] s.air.multilinears@[c]@[i]).canonical(),
        forall|t: int, i: int|
            0 <= t < s.cell_link.values@.len() && 0 <= i < s.cell_link.values@[t]@.len() ==> (
            #[trigger] s.cell_link.values@[t]@[i]).canonical(),
        forall|t: int, i: int|
            0 <= t < s.cell_link.coefficients@.len() && 0 <= i < s.cell_link.coefficients@[t]@.len() ==> (
            #[trigger] s.cell_link.coefficients@[t]@[i]).canonical(),
        forall|t: int, i: int|
            0 <= t < s.linear.values@.len() && 0 <= i < s.linear.values@[t]@.len() ==> (
            #[trigger] s.linear.values@[t]@[i]).canonical(),
    ensures
        batch_round_at(k, s, eta, EF::zero_spec()) + batch_round_at(k, s, eta, EF::one_spec()) == batch_claim(
            k,
            s,
            eta,
        ),
{
    let z = EF::zero_spec();
    let one = EF::one_spec();
    let alpha = s.air.eq_factor@.last();
    let half = rounds::half();
    let air_poly = air_session::session_poly(s.air, k);
    lemma_batch_parts(k, s, z);
    lemma_batch_parts(k, s, one);
    poly::lemma_at_canonical(air_poly, z);
    poly::lemma_at_canonical(air_poly, one);
    batch::lemma_step_ends(alpha, s.air.round_at(k, z));
    batch::lemma_step_ends(alpha, s.air.round_at(k, one));
    air_session::lemma_claim_of_round(s.air, k);
    lemma_session_ends(s);
    let step0 = rounds::eq_step(half, z);
    let step1 = rounds::eq_step(half, one);
    batch::lemma_mix_add(
        eta,
        s.air.round_at(k, z) * rounds::eq_step(alpha, z),
        s.cell_link.round_at(z) * step0,
        s.linear.round_at(z) * step0,
        s.air.round_at(k, one) * rounds::eq_step(alpha, one),
        s.cell_link.round_at(one) * step1,
        s.linear.round_at(one) * step1,
    );
}

} // verus!
