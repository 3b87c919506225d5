//! What the prover sends of an honest table is what the verifier accepts.
use super::claims;
use super::coefficients;
use super::final_check;
use super::hash_table::LeanAirDedicatedHashTable;
use super::honest;
use super::protocol::Challenges;
use super::prover;
use super::prover::Sessions;
use super::rounds;
use super::run;
use super::run::SessionRun;
use super::shape::LeanAirShape;
use super::totals;
use crate::ext;
use crate::ext::EF;
use crate::field::{F, TWO_ADICITY};
use crate::mle;
use crate::poseidon::PoseidonConstants;
use crate::sums;
use vstd::arithmetic::power2::*;
use vstd::prelude::*;

verus! {

/// The value of a multilinear polynomial depends only on its values on the hypercube.
pub proof fn lemma_mle_ext(v: spec_fn(int) -> EF, w: spec_fn(int) -> EF, point: Seq<EF>)
    requires
        forall|i: int| 0 <= i < pow2(point.len()) ==> #[trigger] v(i) == w(i),
    ensures
        mle::mle_at(v, point) == mle::mle_at(w, point),
{
    let a = |i: int| v(i) * mle::eq_weight(point, i);
    let b = |i: int| w(i) * mle::eq_weight(point, i);
    assert forall|i: int| 0 <= i < pow2(point.len()) implies #[trigger] a(i) == b(i) by {
        assert(v(i) == w(i));
    }
    sums::lemma_sum_ext(pow2(point.len()), a, b);
}

/// The claim on the steps of cell hashes that is left is the one that is checked.
pub proof fn lemma_cell_links(
    k: PoseidonConstants,
    table: LeanAirDedicatedHashTable,
    ch: Challenges,
    s: Sessions,
    challenges: Seq<EF>,
    col_evals: Seq<EF>,
)
    requires
        challenges.len() == ch.eq_point@.len(),
        prover::opened(table, ch, s, k),
        table.columns@.len() == 92,
        col_evals.len() == 92,
        forall|c: int|
            0 <= c < 92 ==> #[trigger] col_evals[c] == mle::mle_at(
                run::hash_column(s.air, c),
                challenges.reverse(),
            ),
    ensures
        sums::sum(
            s.cell_link.values@.len(),
            |c: int|
                mle::mle_at(run::dense_column(s.cell_link.values@, c), challenges.reverse()) * mle::mle_at(
                    run::dense_column(s.cell_link.coefficients@, c),
                    challenges.reverse(),
                ),
        ) == final_check::cell_link_value(table.shape, ch, challenges, col_evals),
{
    let shape = table.shape;
    let all = challenges.reverse();
    let a = |c: int|
        mle::mle_at(run::dense_column(s.cell_link.values@, c), all) * mle::mle_at(
            run::dense_column(s.cell_link.coefficients@, c),
            all,
        );
    let b = |slot: int|
        mle::mle_at(
            |row: int| coefficients::cell_link_coeff(shape, ch.cell_link_point, slot, row),
            challenges.reverse(),
        ) * col_evals[claims::cell_link_column_of(slot)];
    assert forall|slot: int| 0 <= slot < 16 implies #[trigger] a(slot) == b(slot) by {
        let column: int = claims::cell_link_column_of(slot) as int;
        let v = run::dense_column(s.cell_link.values@, slot);
        let w = run::hash_column(s.air, column);
        assert forall|i: int| 0 <= i < pow2(all.len()) implies #[trigger] v(i) == w(i) by {
            assert(s.cell_link.values@[slot]@[i] == v(i));
            assert(s.air.row(i) == totals::lifted_row(table.columns@, i));
        }
        lemma_mle_ext(v, w, all);
        assert(col_evals[column] == mle::mle_at(w, all));
        let d = run::dense_column(s.cell_link.coefficients@, slot);
        let e = |row: int| coefficients::cell_link_coeff(shape, ch.cell_link_point, slot, row);
        assert forall|i: int| 0 <= i < pow2(all.len()) implies #[trigger] d(i) == e(i) by {
            assert(s.cell_link.coefficients@[slot]@[i] == d(i));
        }
        lemma_mle_ext(d, e, all);
        ext::lemma_mul_comm(mle::mle_at(v, all), mle::mle_at(d, all));
    }
    sums::lemma_sum_ext(16, a, b);
}

/// The mixed claim that is left is the one that is checked.
pub proof fn lemma_mixed(
    k: PoseidonConstants,
    table: LeanAirDedicatedHashTable,
    ch: Challenges,
    s: Sessions,
    challenges: Seq<EF>,
    col_evals: Seq<EF>,
)
    requires
        challenges.len() == ch.eq_point@.len(),
        prover::opened(table, ch, s, k),
        table.columns@.len() == 92,
        col_evals.len() == 92,
        forall|c: int|
            0 <= c < 92 ==> #[trigger] col_evals[c] == mle::mle_at(
                run::hash_column(s.air, c),
                challenges.reverse(),
            ),
    ensures
        sums::sum(
            s.linear.values@.len(),
            |c: int|
                mle::mle_at(run::dense_column(s.linear.values@, c), challenges.reverse()) * mle::mle_at(
                    run::sparse_column(s.linear.coefficients@, c),
                    challenges.reverse(),
                ),
        ) == final_check::mixed_value(table.shape, ch, challenges, col_evals),
{
    let shape = table.shape;
    let all = challenges.reverse();
    let a = |c: int|
        mle::mle_at(run::dense_column(s.linear.values@, c), all) * mle::mle_at(
            run::sparse_column(s.linear.coefficients@, c),
            all,
        );
    let b = |slot: int|
        mle::mle_at(
            |row: int|
                claims::mixed_coeff(
                    shape,
                    ch.row_coeff_alpha,
                    ch.parity_point,
                    ch.link_point,
                    ch.link_mix,
                    slot,
                    row,
                ),
            challenges.reverse(),
        ) * col_evals[claims::link_column(slot)];
    assert forall|slot: int| 0 <= slot < 24 implies #[trigger] a(slot) == b(slot) by {
        let column: int = claims::link_column(slot) as int;
        let v = run::dense_column(s.linear.values@, slot);
        let w = run::hash_column(s.air, column);
        assert forall|i: int| 0 <= i < pow2(all.len()) implies #[trigger] v(i) == w(i) by {
            assert(s.linear.values@[slot]@[i] == v(i));
            assert(s.air.row(i) == totals::lifted_row(table.columns@, i));
        }
        lemma_mle_ext(v, w, all);
        assert(col_evals[column] == mle::mle_at(w, all));
        let d = run::sparse_column(s.linear.coefficients@, slot);
        let e = |row: int|
            claims::mixed_coeff(
                shape,
                ch.row_coeff_alpha,
                ch.parity_point,
                ch.link_point,
                ch.link_mix,
                slot,
                row,
            );
        assert forall|i: int| 0 <= i < pow2(all.len()) implies #[trigger] d(i) == e(i) by {
            assert(crate::lean_air::sparse::value_at(s.linear.coefficients@[slot]@, i) == d(i));
        }
        lemma_mle_ext(d, e, all);
        ext::lemma_mul_comm(mle::mle_at(v, all), mle::mle_at(d, all));
    }
    sums::lemma_sum_ext(24, a, b);
}

/// Whatever the challenges, the run of an honest table is consistent in every round, claims at the
/// end the values of the columns of the table, and ends with the value that is checked.
pub proof fn law_honest_run_is_accepted(
    k: PoseidonConstants,
    shape: LeanAirShape,
    data: Seq<Seq<F>>,
    messages: Seq<Seq<EF>>,
    table: LeanAirDedicatedHashTable,
    ch: Challenges,
    s: Sessions,
    challenges: Seq<EF>,
    run: SessionRun,
)
    requires
        shape.valid(),
        shape.log_m < TWO_ADICITY,
        honest::rows_of_codewords(shape, data, messages),
        table.holds(k, shape, data),
        shape.table_rows() == pow2(ch.eq_point@.len()),
        challenges.len() == ch.eq_point@.len(),
        prover::opened(table, ch, s, k),
        run.runs(k, s, challenges),
    ensures
        forall|i: int| 0 <= i < challenges.len() ==> (#[trigger] run.rounds@[i]).consistent(run::alpha_of(s, i)),
        forall|c: int|
            0 <= c < 92 ==> #[trigger] run.col_evals@[c] == mle::mle_at(
                |i: int| EF::from_base_spec(table.columns@[c]@[i]),
                challenges.reverse(),
            ),
        run.value(ch.eta) == final_check::expected_value(
            k,
            shape,
            ch,
            challenges.reverse(),
            challenges,
            run.col_evals@,
        ),
{
    prover::law_honest_sessions_start_true(k, shape, data, messages, table, ch, s);
    let all = challenges.reverse();
    let half = rounds::half().pow(challenges.len());
    let evals = run.col_evals@;
    assert forall|c: int| 0 <= c < 92 implies #[trigger] evals[c] == mle::mle_at(
        |i: int| EF::from_base_spec(table.columns@[c]@[i]),
        all,
    ) by {
        let v = run::hash_column(s.air, c);
        let w = |i: int| EF::from_base_spec(table.columns@[c]@[i]);
        assert forall|i: int| 0 <= i < pow2(all.len()) implies #[trigger] v(i) == w(i) by {
            assert(s.air.row(i) == totals::lifted_row(table.columns@, i));
        }
        lemma_mle_ext(v, w, all);
        assert(evals[c] == mle::mle_at(v, all));
    }
    lemma_cell_links(k, table, ch, s, challenges, evals);
    lemma_mixed(k, table, ch, s, challenges, evals);
    assert(s.air.alphas@ =~= final_check::alpha_powers(ch.air_alpha));
    let cells = final_check::cell_link_value(shape, ch, challenges, evals);
    let mixed = final_check::mixed_value(shape, ch, challenges, evals);
    ext::lemma_mul_assoc(ch.eta, half, cells);
    ext::lemma_mul_assoc(ch.eta * ch.eta, half, mixed);
}

} // verus!
