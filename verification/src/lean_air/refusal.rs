//! Tables of rows that are no codewords are refused.
use super::batch;
use super::detection;
use super::exchange;
use super::exchange::ProverValues;
use super::hash_table::LeanAirDedicatedHashTable;
use super::honest;
use super::links;
use super::parity;
use super::protocol::Challenges;
use super::prover;
use super::prover::Sessions;
use super::rounds;
use super::run;
use super::run::SessionRound;
use super::shape::LeanAirShape;
use crate::ext;
use crate::ext::EF;
use crate::field;
use crate::field::{F, TWO_ADICITY};
use crate::ntt;
use crate::poly;
use crate::poseidon::PoseidonConstants;
use crate::sums;
use vstd::arithmetic::power2::*;
use vstd::prelude::*;

verus! {

/// A row that is no codeword fails the parity check of the table: of as many weights of the rows as
/// there are rows, and as many parity points as a message has elements, one pair makes the parity
/// claim of the table that was built from the rows another sum than zero.
pub proof fn law_non_codeword_is_detected(
    k: PoseidonConstants,
    shape: LeanAirShape,
    data: Seq<Seq<F>>,
    row: int,
    alphas: Seq<EF>,
    points: Seq<EF>,
) -> (at: (int, int))
    requires
        shape.valid(),
        shape.log_m < TWO_ADICITY,
        links::full_rows(shape, data),
        honest::canonical_rows(data),
        0 <= row < shape.n_rows,
        forall|m: Seq<EF>|
            m.len() == shape.message_len() ==> honest::word_of(data[row]) != #[trigger] ntt::codeword_spec(m),
        alphas.len() == shape.n_rows,
        poly::apart(alphas),
        points.len() == pow2(shape.log_m as nat),
        poly::apart(points),
    ensures
        0 <= at.0 < alphas.len(),
        0 <= at.1 < points.len(),
        sums::sum(16, |slot: int| honest::parity_claim(k, shape, data, alphas[at.0], points[at.1], slot))
            != EF::zero_spec(),
{
    let l: nat = shape.log_m as nat;
    let word = honest::word_of(data[row]);
    honest::lemma_word(shape, data, row);
    if forall|i: int|
        0 <= i < points.len() ==> parity::half_check(l, #[trigger] points[i], word, 0) == parity::half_check(
            l,
            points[i],
            word,
            1,
        ) {
        let message = detection::law_parity_detects(l, word, points);
        assert(word == ntt::codeword_spec(message));
        assert(false);
    }
    let j = choose|j: int|
        0 <= j < points.len() && parity::half_check(l, #[trigger] points[j], word, 0) != parity::half_check(
            l,
            points[j],
            word,
            1,
        );
    let r = points[j];
    // At that point the claim is a polynomial in the weight of the rows, and not the zero one.
    let c = row_differences(shape, data, r);
    assert forall|i: int| 0 <= i < c.len() implies (#[trigger] c[i]).canonical() by {
        ext::lemma_add_canonical(
            parity::half_check(l, r, honest::word_of(data[i]), 0),
            parity::half_check(l, r, honest::word_of(data[i]), 1),
        );
    }
    assert(c[row] != EF::zero_spec()) by {
        lemma_check_canonical(l, r, word, 0);
        lemma_check_canonical(l, r, word, 1);
        ext::lemma_sub_zero_iff(parity::half_check(l, r, word, 0), parity::half_check(l, r, word, 1));
    }
    if forall|i: int| 0 <= i < alphas.len() ==> poly::poly_at(c, #[trigger] alphas[i]) == EF::zero_spec() {
        poly::law_zeros_determine(c, alphas, row);
        assert(false);
    }
    let i = choose|i: int| 0 <= i < alphas.len() && poly::poly_at(c, #[trigger] alphas[i]) != EF::zero_spec();
    lemma_claim_is_polynomial(k, shape, data, alphas[i], r);
    (i, j)
}

/// The differences of the checks of the halves of the rows.
spec fn row_differences(shape: LeanAirShape, data: Seq<Seq<F>>, r: EF) -> Seq<EF> {
    Seq::new(
        shape.n_rows as nat,
        |row: int|
            parity::half_check(shape.log_m as nat, r, honest::word_of(data[row]), 0) - parity::half_check(
                shape.log_m as nat,
                r,
                honest::word_of(data[row]),
                1,
            ),
    )
}

proof fn lemma_check_canonical(log_m: nat, r: EF, word: Seq<EF>, side: int)
    ensures
        parity::half_check(log_m, r, word, side).canonical(),
{
    sums::lemma_sum_canonical(
        pow2(log_m),
        |j: int| parity::parity_weight(log_m, r, 2 * j + side) * word[2 * j + side],
    );
}

/// The parity claim as the value of a polynomial at the weight of the rows.
proof fn lemma_claim_is_polynomial(
    k: PoseidonConstants,
    shape: LeanAirShape,
    data: Seq<Seq<F>>,
    alpha: EF,
    r: EF,
)
    requires
        shape.valid(),
        links::full_rows(shape, data),
        honest::canonical_rows(data),
    ensures
        sums::sum(16, |slot: int| honest::parity_claim(k, shape, data, alpha, r, slot)) == poly::poly_at(
            row_differences(shape, data, r),
            alpha,
        ),
{
    let c = row_differences(shape, data, r);
    let l: nat = shape.log_m as nat;
    honest::law_parity_sum(k, shape, data, alpha, r);
    assert forall|i: int| 0 <= i < c.len() implies (#[trigger] c[i]).canonical() by {
        ext::lemma_add_canonical(
            parity::half_check(l, r, honest::word_of(data[i]), 0),
            parity::half_check(l, r, honest::word_of(data[i]), 1),
        );
    }
    detection::lemma_at_is_sum(c, alpha);
    sums::lemma_sum_ext(
        shape.n_rows as nat,
        |row: int|
            alpha.pow(row as nat) * (parity::half_check(
                shape.log_m as nat,
                r,
                honest::word_of(data[row]),
                0,
            ) - parity::half_check(shape.log_m as nat, r, honest::word_of(data[row]), 1)),
        |j: int| alpha.pow(j as nat) * c[j],
    );
}

/// The weight of a linear session is not zero.
pub proof fn lemma_weight_nonzero(n: nat)
    ensures
        rounds::half().pow(n) != EF::zero_spec(),
    decreases n,
{
    let z = EF::zero_spec();
    let h = rounds::half();
    ext::lemma_constants_canonical();
    field::lemma_of_val(0);
    field::lemma_of_val(1);
    if n > 0 {
        let m: nat = (n - 1) as nat;
        lemma_weight_nonzero(m);
        rounds::lemma_half();
        ext::lemma_pow_canonical(h, m);
        if h == z {
            ext::lemma_add_zero(z);
            assert(false);
        }
        if h.pow(n) == z {
            poly::lemma_unit_cancel(h.pow(m), h);
        }
    }
}

/// The sums of the sessions of a table that was built from any rows: the parity claim, with the
/// weight of the session and the mixing challenge, and nothing else.
proof fn lemma_batch_claim(
    k: PoseidonConstants,
    shape: LeanAirShape,
    data: Seq<Seq<F>>,
    table: LeanAirDedicatedHashTable,
    ch: Challenges,
    s: Sessions,
)
    requires
        shape.valid(),
        links::full_rows(shape, data),
        table.holds(k, shape, data),
        shape.table_rows() == pow2(ch.eq_point@.len()),
        prover::opened(table, ch, s, k),
        ch.eta.canonical(),
        ch.eta != EF::zero_spec(),
        sums::sum(
            16,
            |slot: int| honest::parity_claim(k, shape, data, ch.row_coeff_alpha, ch.parity_point, slot),
        ) != EF::zero_spec(),
    ensures
        s.air.claim(k) == EF::zero_spec(),
        s.cell_link.claim() == EF::zero_spec(),
        ch.eta * ch.eta * s.linear.claim() != EF::zero_spec(),
        detection::batch_claim(k, s, ch.eta) == ch.eta * ch.eta * s.linear.claim(),
{
    let z = EF::zero_spec();
    let n: nat = ch.eq_point@.len();
    let claim = |slot: int| honest::parity_claim(k, shape, data, ch.row_coeff_alpha, ch.parity_point, slot);
    let total = sums::sum(16, claim);
    let square = ch.eta * ch.eta;
    prover::lemma_air_starts_true(k, shape, data, table, ch, s);
    prover::lemma_cell_link_starts_true(k, shape, data, table, ch, s);
    prover::lemma_linear_claim(k, shape, data, table, ch, s);
    ext::lemma_constants_canonical();
    sums::lemma_sum_canonical(16, claim);
    // The weight is half to the number of variables.
    let weight = rounds::half().pow(n);
    lemma_weight_nonzero(n);
    ext::lemma_pow_canonical(rounds::half(), n);
    ext::lemma_mul_one(weight);
    assert(s.linear.claim() == weight * total);
    ext::lemma_mul_canonical(weight, total);
    if weight * total == z {
        poly::lemma_unit_cancel(weight, total);
    }
    ext::lemma_mul_canonical(ch.eta, ch.eta);
    if square == z {
        poly::lemma_unit_cancel(ch.eta, ch.eta);
    }
    if square * s.linear.claim() == z {
        poly::lemma_unit_cancel(square, s.linear.claim());
    }
    ext::lemma_mul_zero(ch.eta);
    ext::lemma_add_zero(z);
    let last = square * s.linear.claim();
    ext::lemma_mul_canonical(square, s.linear.claim());
    ext::lemma_add_comm(z, last);
    ext::lemma_add_zero(last);
}

/// A table of rows whose parity claim is not zero is refused, even under its own root: the sums of
/// its sessions are not zero, and the rounds that the prover computes of it do not hold. What the
/// verifier is sent of it is an invalid proof.
pub proof fn law_non_codewords_are_refused(
    k: PoseidonConstants,
    shape: LeanAirShape,
    data: Seq<Seq<F>>,
    table: LeanAirDedicatedHashTable,
    ch: Challenges,
    point: Seq<EF>,
    s: Sessions,
    values: ProverValues,
)
    requires
        shape.valid(),
        shape.fits(),
        links::full_rows(shape, data),
        table.holds(k, shape, data),
        shape.table_rows() == pow2(ch.eq_point@.len()),
        point.len() == ch.eq_point@.len(),
        values.proves(k, table, ch, point, s),
        ch.eta.canonical(),
        ch.eta != EF::zero_spec(),
        sums::sum(
            16,
            |slot: int| honest::parity_claim(k, shape, data, ch.row_coeff_alpha, ch.parity_point, slot),
        ) != EF::zero_spec(),
    ensures
        detection::batch_claim(k, s, ch.eta) != EF::zero_spec(),
        !batch::rounds_hold(values.polys@, point),
{
    let z = EF::zero_spec();
    let one = EF::one_spec();
    lemma_batch_claim(k, shape, data, table, ch, s);
    exchange::lemma_rounds_exist(shape, point);
    let states = choose|states: Seq<Sessions>| #[trigger]
        run::traversed(k, s, point, values.run.rounds@, states);
    let round = values.run.rounds@[0];
    assert(run::whole(k, states[0]));
    assert(run::is_round(k, s, round));
    let alpha = s.air.eq_factor@.last();
    lemma_first_round(k, s, round, ch.eta);
    let p = values.polys@[0];
    assert(poly::poly_at(p.coeffs@, z) == round.combined_at(alpha, ch.eta, z));
    assert(poly::poly_at(p.coeffs@, one) == round.combined_at(alpha, ch.eta, one));
    assert(!batch::round_holds(values.polys@[0], batch::target(values.polys@, point, 0)));
}

/// The polynomial of the first round adds up to the sum that the hash session claims and the sums
/// that the linear sessions are about.
proof fn lemma_first_round(k: PoseidonConstants, s: Sessions, round: SessionRound, eta: EF)
    requires
        run::live(k, s),
        run::whole(k, s),
        run::is_round(k, s, round),
    ensures
        round.combined_at(s.air.eq_factor@.last(), eta, EF::zero_spec()) + round.combined_at(
            s.air.eq_factor@.last(),
            eta,
            EF::one_spec(),
        ) == s.air.sum + eta * s.cell_link.claim() + eta * eta * s.linear.claim(),
{
    let z = EF::zero_spec();
    let one = EF::one_spec();
    let half = rounds::half();
    let alpha = s.air.eq_factor@.last();
    batch::lemma_ends_add_up(round.air, alpha);
    detection::lemma_session_ends(s);
    let step0 = rounds::eq_step(half, z);
    let step1 = rounds::eq_step(half, one);
    assert(poly::poly_at(round.cell_link.coeffs@, z) == s.cell_link.round_at(z));
    assert(poly::poly_at(round.cell_link.coeffs@, one) == s.cell_link.round_at(one));
    assert(poly::poly_at(round.linear.coeffs@, z) == s.linear.round_at(z));
    assert(poly::poly_at(round.linear.coeffs@, one) == s.linear.round_at(one));
    batch::lemma_mix_add(
        eta,
        run::value_after(round.air, alpha, z),
        s.cell_link.round_at(z) * step0,
        s.linear.round_at(z) * step0,
        run::value_after(round.air, alpha, one),
        s.cell_link.round_at(one) * step1,
        s.linear.round_at(one) * step1,
    );
}

} // verus!
