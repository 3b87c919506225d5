//! Columns whose sums vanish, whatever the challenges, are tables of codewords.
use super::air;
use super::claims;
use super::coefficients;
use super::commit;
use super::detection;
use super::extraction;
use super::hash_table;
use super::hash_table::LeanAirDedicatedHashTable;
use super::hom;
use super::honest;
use super::linear_session;
use super::links;
use super::protocol::Challenges;
use super::prover;
use super::prover::Sessions;
use super::refusal;
use super::rounds;
use super::shape;
use super::shape::LeanAirShape;
use super::sparse;
use super::totals;
use super::wiring;
use crate::arith;
use crate::ext;
use crate::ext::EF;
use crate::field::{F, TWO_ADICITY};
use crate::mle;
use crate::ntt;
use crate::poly;
use crate::poseidon::PoseidonConstants;
use crate::sums;
use vstd::arithmetic::power2::*;
use vstd::prelude::*;

verus! {

/// The values of columns.
pub open spec fn values_of(columns: Seq<Vec<F>>) -> spec_fn(int, int) -> F {
    |c: int, x: int| columns[c]@[x]
}

/// The powers of the challenge that combines the constraints.
pub open spec fn powers_of(alpha: EF) -> Seq<EF> {
    Seq::new(77, |i: int| alpha.pow(i as nat))
}

/// The sum over columns that the proof claims to be zero: the constraints, the steps of cell hashes
/// and the mixed claim, combined by `eta`, the linear claims with the weight of their sessions.
pub open spec fn batch_total(
    k: PoseidonConstants,
    shape: LeanAirShape,
    columns: Seq<Vec<F>>,
    eq_point: Seq<EF>,
    air_alpha: EF,
    row_alpha: EF,
    parity_point: EF,
    cell_link_point: EF,
    link_point: EF,
    link_mix: EF,
    eta: EF,
) -> EF {
    let v = values_of(columns);
    let weight = linear_session::claim_weight(eq_point.len(), EF::one_spec());
    totals::air_sum_spec(k, columns, eq_point, powers_of(air_alpha)) + eta * (weight * wiring::cell_link_total(
        shape,
        v,
        cell_link_point,
    )) + eta * eta * (weight * wiring::mixed_total(shape, v, row_alpha, parity_point, link_point, link_mix))
}

/// The claim of the hash session on any columns.
proof fn lemma_hash_claim(k: PoseidonConstants, table: LeanAirDedicatedHashTable, ch: Challenges, s: Sessions)
    requires
        prover::opened(table, ch, s, k),
    ensures
        s.air.claim(k) == totals::air_sum_spec(k, table.columns@, ch.eq_point@, powers_of(ch.air_alpha)),
{
    let n: nat = pow2(ch.eq_point@.len());
    let powers = powers_of(ch.air_alpha);
    assert(s.air.alphas@ =~= powers);
    let a = |i: int| air::combined_constraints(k, s.air.alphas@, s.air.row(i)) * mle::eq_weight(s.air.eq_factor@, i);
    let b = |row: int|
        mle::eq_weight(ch.eq_point@, row) * air::combined_constraints(
            k,
            powers,
            totals::lifted_row(table.columns@, row),
        );
    assert forall|i: int| 0 <= i < n implies #[trigger] a(i) == b(i) by {
        assert(s.air.row(i) == totals::lifted_row(table.columns@, i));
        ext::lemma_mul_comm(
            air::combined_constraints(k, s.air.alphas@, s.air.row(i)),
            mle::eq_weight(ch.eq_point@, i),
        );
    }
    sums::lemma_sum_ext(n, a, b);
    sums::lemma_sum_canonical(n, a);
    ext::lemma_mul_one(sums::sum(n, a));
}

/// The claim of the session of cell links on any columns.
proof fn lemma_cell_claim(k: PoseidonConstants, table: LeanAirDedicatedHashTable, ch: Challenges, s: Sessions)
    requires
        table.shape.table_rows() == pow2(ch.eq_point@.len()),
        prover::opened(table, ch, s, k),
    ensures
        s.cell_link.claim() == linear_session::claim_weight(ch.eq_point@.len(), EF::one_spec())
            * wiring::cell_link_total(table.shape, values_of(table.columns@), ch.cell_link_point),
{
    let n: nat = pow2(ch.eq_point@.len());
    let shape = table.shape;
    let v = linear_session::column_values(s.cell_link.values@);
    let c = linear_session::column_values(s.cell_link.coefficients@);
    let held = values_of(table.columns@);
    let a = |slot: int| sums::sum(n, |i: int| v(slot, i) * c(slot, i));
    let b = |slot: int|
        sums::sum(
            shape.table_rows(),
            |row: int|
                coefficients::cell_link_coeff(shape, ch.cell_link_point, slot, row).scale_spec(
                    held(claims::cell_link_column_of(slot), row),
                ),
        );
    assert forall|slot: int| 0 <= slot < 16 implies #[trigger] a(slot) == b(slot) by {
        let x = |i: int| v(slot, i) * c(slot, i);
        let y = |row: int|
            coefficients::cell_link_coeff(shape, ch.cell_link_point, slot, row).scale_spec(
                held(claims::cell_link_column_of(slot), row),
            );
        assert forall|i: int| 0 <= i < n implies #[trigger] x(i) == y(i) by {
            let value = table.columns@[claims::cell_link_column_of(slot)]@[i];
            assert(s.cell_link.values@[slot]@[i] == EF::from_base_spec(value));
            assert(s.cell_link.coefficients@[slot]@[i] == coefficients::cell_link_coeff(
                shape,
                ch.cell_link_point,
                slot,
                i,
            ));
            ext::lemma_mul_comm(v(slot, i), c(slot, i));
            ext::lemma_scale_is_mul(c(slot, i), value);
        }
        sums::lemma_sum_ext(n, x, y);
    }
    sums::lemma_sum_ext(16, a, b);
}

/// The claim of the linear session on any columns.
proof fn lemma_mixed_claim(k: PoseidonConstants, table: LeanAirDedicatedHashTable, ch: Challenges, s: Sessions)
    requires
        table.shape.table_rows() == pow2(ch.eq_point@.len()),
        prover::opened(table, ch, s, k),
    ensures
        s.linear.claim() == linear_session::claim_weight(ch.eq_point@.len(), EF::one_spec()) * wiring::mixed_total(
            table.shape,
            values_of(table.columns@),
            ch.row_coeff_alpha,
            ch.parity_point,
            ch.link_point,
            ch.link_mix,
        ),
{
    let n: nat = pow2(ch.eq_point@.len());
    let shape = table.shape;
    let v = linear_session::column_values(s.linear.values@);
    let c = linear_session::sparse_values(s.linear.coefficients@);
    let held = values_of(table.columns@);
    let coeff = |slot: int, row: int|
        claims::mixed_coeff(
            shape,
            ch.row_coeff_alpha,
            ch.parity_point,
            ch.link_point,
            ch.link_mix,
            slot,
            row,
        );
    let a = |slot: int| sums::sum(n, |i: int| v(slot, i) * c(slot, i));
    let b = |slot: int|
        sums::sum(
            shape.table_rows(),
            |row: int|
                claims::mixed_coeff(
                    shape,
                    ch.row_coeff_alpha,
                    ch.parity_point,
                    ch.link_point,
                    ch.link_mix,
                    slot,
                    row,
                ).scale_spec(held(claims::link_column(slot), row)),
        );
    assert forall|slot: int| 0 <= slot < 24 implies #[trigger] a(slot) == b(slot) by {
        let x = |i: int| v(slot, i) * c(slot, i);
        let y = |row: int|
            claims::mixed_coeff(
                shape,
                ch.row_coeff_alpha,
                ch.parity_point,
                ch.link_point,
                ch.link_mix,
                slot,
                row,
            ).scale_spec(held(claims::link_column(slot), row));
        assert forall|i: int| 0 <= i < n implies #[trigger] x(i) == y(i) by {
            let value = table.columns@[claims::link_column(slot)]@[i];
            assert(s.linear.values@[slot]@[i] == EF::from_base_spec(value));
            assert(sparse::value_at(s.linear.coefficients@[slot]@, i) == coeff(slot, i));
            ext::lemma_mul_comm(v(slot, i), c(slot, i));
            ext::lemma_scale_is_mul(c(slot, i), value);
        }
        sums::lemma_sum_ext(n, x, y);
    }
    sums::lemma_sum_ext(24, a, b);
}

/// What the sessions of any columns are about is the sum over the columns.
pub proof fn law_batch_claim_is_total(
    k: PoseidonConstants,
    table: LeanAirDedicatedHashTable,
    ch: Challenges,
    s: Sessions,
)
    requires
        table.shape.table_rows() == pow2(ch.eq_point@.len()),
        prover::opened(table, ch, s, k),
    ensures
        detection::batch_claim(k, s, ch.eta) == batch_total(
            k,
            table.shape,
            table.columns@,
            ch.eq_point@,
            ch.air_alpha,
            ch.row_coeff_alpha,
            ch.parity_point,
            ch.cell_link_point,
            ch.link_point,
            ch.link_mix,
            ch.eta,
        ),
{
    lemma_hash_claim(k, table, ch, s);
    lemma_cell_claim(k, table, ch, s);
    lemma_mixed_claim(k, table, ch, s);
}

/// Every row of columns satisfies all constraints, where the weighted constraints vanish for as many
/// challenges as there are constraints, and for all equality points of a grid of two values for each
/// coordinate.
pub proof fn law_vanishing_hash_claims_satisfy(
    k: PoseidonConstants,
    columns: Seq<Vec<F>>,
    alphas: Seq<EF>,
    low: Seq<EF>,
    high: Seq<EF>,
    x: int,
    i: int,
)
    requires
        columns.len() == 92,
        alphas.len() >= 76,
        poly::apart(alphas),
        mle::is_grid(low, high),
        forall|m: int, point: Seq<EF>|
            0 <= m < alphas.len() && mle::on_grid(point, low, high) ==> #[trigger] totals::air_sum_spec(
                k,
                columns,
                point,
                powers_of(alphas[m]),
            ) == EF::zero_spec(),
        0 <= x < pow2(low.len()),
        0 <= i < 76,
    ensures
        air::constraints_spec(k, extraction::row_of(values_of(columns), x))[i] == F::zero_spec(),
{
    let row = extraction::row_of(values_of(columns), x);
    let lifted = totals::lifted_row(columns, x);
    let h = |a: F| EF::from_base_spec(a);
    assert(lifted =~= hom::mapped(h, row));
    totals::lemma_from_base_keeps_operations();
    hom::lemma_map_constraints(h, k, row);
    let base = air::constraints_spec(k, row);
    let c = air::constraints_spec(k, lifted);
    assert forall|e: int| 0 <= e < 76 implies #[trigger] c[e] == EF::from_base_spec(base[e]) && c[e].canonical() by {
        air::lemma_constraint_canonical(k, row, e);
        ext::lemma_from_base_canonical(base[e]);
    }
    assert forall|m: int| 0 <= m < alphas.len() implies poly::poly_at(c, #[trigger] alphas[m]) == EF::zero_spec() by {
        let alpha = alphas[m];
        lemma_row_claim(k, columns, alpha, low, high, x);
        detection::lemma_at_is_sum(c, alpha);
        sums::lemma_sum_ext(
            76,
            |j: int| alpha.pow(j as nat) * c[j],
            |j: int| powers_of(alpha)[j] * air::constraints_spec(k, lifted)[j],
        );
    }
    poly::law_zeros_determine(c, alphas, i);
    assert(c[i] == EF::from_base_spec(base[i]));
}

/// The combined constraints on one row vanish, where the weighted ones vanish on a grid.
proof fn lemma_row_claim(
    k: PoseidonConstants,
    columns: Seq<Vec<F>>,
    alpha: EF,
    low: Seq<EF>,
    high: Seq<EF>,
    x: int,
)
    requires
        mle::is_grid(low, high),
        forall|point: Seq<EF>|
            mle::on_grid(point, low, high) ==> #[trigger] totals::air_sum_spec(k, columns, point, powers_of(alpha))
                == EF::zero_spec(),
        0 <= x < pow2(low.len()),
    ensures
        air::combined_constraints(k, powers_of(alpha), totals::lifted_row(columns, x)) == EF::zero_spec(),
{
    let powers = powers_of(alpha);
    let v = |row: int| air::combined_constraints(k, powers, totals::lifted_row(columns, row));
    assert forall|row: int| (#[trigger] v(row)).canonical() by {
        sums::lemma_sum_canonical(
            76,
            |i: int| powers[i] * air::constraints_spec(k, totals::lifted_row(columns, row))[i],
        );
    }
    assert forall|point: Seq<EF>| mle::on_grid(point, low, high) implies #[trigger] mle::mle_at(v, point)
        == EF::zero_spec() by {
        let n: nat = pow2(point.len());
        let a = |row: int| v(row) * mle::eq_weight(point, row);
        let b = |row: int|
            mle::eq_weight(point, row) * air::combined_constraints(k, powers, totals::lifted_row(columns, row));
        assert forall|row: int| 0 <= row < n implies #[trigger] a(row) == b(row) by {
            ext::lemma_mul_comm(v(row), mle::eq_weight(point, row));
        }
        sums::lemma_sum_ext(n, a, b);
        assert(totals::air_sum_spec(k, columns, point, powers) == EF::zero_spec());
    }
    mle::law_grid_determines(v, low, high, x);
    assert(v(x) == EF::zero_spec());
}

/// A polynomial of three coefficients that vanishes at three points is zero.
proof fn lemma_three(a: EF, b: EF, c: EF, points: Seq<EF>)
    requires
        a.canonical(),
        b.canonical(),
        c.canonical(),
        points.len() == 3,
        poly::apart(points),
        forall|e: int|
            0 <= e < 3 ==> a + (#[trigger] points[e]) * b + points[e] * points[e] * c == EF::zero_spec(),
    ensures
        a == EF::zero_spec(),
        b == EF::zero_spec(),
        c == EF::zero_spec(),
{
    let all = seq![a, b, c];
    let two = all.drop_first();
    let one = two.drop_first();
    assert(two =~= seq![b, c] && one =~= seq![c]);
    assert forall|e: int| 0 <= e < 3 implies poly::poly_at(all, #[trigger] points[e]) == EF::zero_spec() by {
        let x = points[e];
        ext::lemma_mul_zero(x);
        ext::lemma_add_zero(c);
        assert(poly::poly_at(one.drop_first(), x) == EF::zero_spec());
        assert(poly::poly_at(one, x) == c);
        assert(poly::poly_at(two, x) == b + x * c);
        ext::lemma_mul_distrib_right(x, b, x * c);
        ext::lemma_mul_assoc(x, x, c);
        ext::lemma_add_assoc(a, x * b, x * x * c);
    }
    poly::law_zeros_determine(all, points, 0);
    poly::law_zeros_determine(all, points, 1);
    poly::law_zeros_determine(all, points, 2);
}

/// Where the sum over columns vanishes for three values of `eta`, each of the claims does.
proof fn lemma_claims_vanish(
    k: PoseidonConstants,
    shape: LeanAirShape,
    columns: Seq<Vec<F>>,
    eq_point: Seq<EF>,
    air_alpha: EF,
    row_alpha: EF,
    parity_point: EF,
    cell_link_point: EF,
    link_point: EF,
    link_mix: EF,
    etas: Seq<EF>,
)
    requires
        etas.len() == 3,
        poly::apart(etas),
        forall|e: int|
            0 <= e < 3 ==> batch_total(
                k,
                shape,
                columns,
                eq_point,
                air_alpha,
                row_alpha,
                parity_point,
                cell_link_point,
                link_point,
                link_mix,
                #[trigger] etas[e],
            ) == EF::zero_spec(),
    ensures
        totals::air_sum_spec(k, columns, eq_point, powers_of(air_alpha)) == EF::zero_spec(),
        wiring::cell_link_total(shape, values_of(columns), cell_link_point) == EF::zero_spec(),
        wiring::mixed_total(shape, values_of(columns), row_alpha, parity_point, link_point, link_mix)
            == EF::zero_spec(),
{
    let v = values_of(columns);
    let n: nat = eq_point.len();
    let weight = linear_session::claim_weight(n, EF::one_spec());
    let hash = totals::air_sum_spec(k, columns, eq_point, powers_of(air_alpha));
    let cell = wiring::cell_link_total(shape, v, cell_link_point);
    let mixed = wiring::mixed_total(shape, v, row_alpha, parity_point, link_point, link_mix);
    sums::lemma_sum_canonical(
        pow2(n),
        |row: int|
            mle::eq_weight(eq_point, row) * air::combined_constraints(
                k,
                powers_of(air_alpha),
                totals::lifted_row(columns, row),
            ),
    );
    wiring::lemma_totals_canonical(shape, v, row_alpha, parity_point, cell_link_point, link_point, link_mix);
    refusal::lemma_weight_nonzero(n);
    ext::lemma_pow_canonical(rounds::half(), n);
    ext::lemma_mul_one(rounds::half().pow(n));
    assert(weight == rounds::half().pow(n));
    ext::lemma_mul_canonical(weight, cell);
    ext::lemma_mul_canonical(weight, mixed);
    assert forall|e: int| 0 <= e < 3 implies hash + (#[trigger] etas[e]) * (weight * cell) + etas[e] * etas[e] * (
    weight * mixed) == EF::zero_spec() by {
        assert(batch_total(
            k,
            shape,
            columns,
            eq_point,
            air_alpha,
            row_alpha,
            parity_point,
            cell_link_point,
            link_point,
            link_mix,
            etas[e],
        ) == EF::zero_spec());
    }
    lemma_three(hash, weight * cell, weight * mixed, etas);
    poly::lemma_unit_cancel(weight, cell);
    poly::lemma_unit_cancel(weight, mixed);
}

/// Columns whose sum vanishes for all challenges out of sets that are as large as the degrees are the
/// table of codewords: every hash row satisfies the constraints, every link holds, each row of the
/// data that the columns hold is a codeword, the hash rows are those of this data, and the output of
/// the last of them is the commitment to it.
pub proof fn law_vanishing_sums_commit_to_codewords(
    k: PoseidonConstants,
    shape: LeanAirShape,
    columns: Seq<Vec<F>>,
    low: Seq<EF>,
    high: Seq<EF>,
    air_alphas: Seq<EF>,
    row_alphas: Seq<EF>,
    parity_points: Seq<EF>,
    cell_link_points: Seq<EF>,
    link_points: Seq<EF>,
    mixes: Seq<EF>,
    etas: Seq<EF>,
)
    requires
        shape.valid(),
        shape.log_m < TWO_ADICITY,
        columns.len() == 92,
        wiring::canonical_values(shape, values_of(columns)),
        shape.table_rows() == pow2(low.len()),
        mle::is_grid(low, high),
        air_alphas.len() == 76,
        poly::apart(air_alphas),
        row_alphas.len() == shape.n_rows,
        poly::apart(row_alphas),
        parity_points.len() == pow2(shape.log_m as nat),
        poly::apart(parity_points),
        cell_link_points.len() == 8 * wiring::n_cell_links(shape) + 1,
        poly::apart(cell_link_points),
        link_points.len() == 8 * coefficients::n_links(shape) + 1,
        poly::apart(link_points),
        mixes.len() == 2,
        poly::apart(mixes),
        etas.len() == 3,
        poly::apart(etas),
        forall|point: Seq<EF>, a: int, r: int, p: int, c: int, l: int, m: int, e: int|
            mle::on_grid(point, low, high) && 0 <= a < air_alphas.len() && 0 <= r < row_alphas.len() && 0 <= p
                < parity_points.len() && 0 <= c < cell_link_points.len() && 0 <= l < link_points.len() && 0 <= m
                < mixes.len() && 0 <= e < etas.len() ==> #[trigger] batch_total(
                k,
                shape,
                columns,
                point,
                air_alphas[a],
                row_alphas[r],
                parity_points[p],
                cell_link_points[c],
                link_points[l],
                mixes[m],
                etas[e],
            ) == EF::zero_spec(),
    ensures
        extraction::satisfied(k, shape, values_of(columns)),
        wiring::wired(shape, values_of(columns)),
        links::full_rows(shape, extraction::held_data(shape, values_of(columns))),
        forall|row: int|
            0 <= row < shape.n_rows ==> exists|m: Seq<EF>|
                m.len() == shape.message_len() && honest::word_of(
                    #[trigger] extraction::held_data(shape, values_of(columns))[row],
                ) == #[trigger] ntt::codeword_spec(m),
        forall|c: int, x: int|
            0 <= c < 92 && 0 <= x < shape.total_rows() ==> #[trigger] columns[c]@[x] == hash_table::table_value(
                k,
                shape,
                extraction::held_data(shape, values_of(columns)),
                c,
                x,
            ),
        Seq::new(8, |l: int| columns[84 + l]@[shape.final_row()]) == commit::commitment_spec(
            k,
            shape,
            extraction::held_data(shape, values_of(columns)),
        ),
{
    let z = EF::zero_spec();
    let v = values_of(columns);
    let data = extraction::held_data(shape, v);
    let _ = shape::lemma_shape(shape);
    links::lemma_starts(shape);
    arith::lemma_next_pow2((shape.total_rows() + 1) as nat);
    lemma_pow2_pos(shape.log_m as nat);
    assert(mle::on_grid(low, low, high));
    assert forall|a: int, point: Seq<EF>| 0 <= a < 76 && mle::on_grid(point, low, high) implies
        #[trigger] totals::air_sum_spec(k, columns, point, powers_of(air_alphas[a])) == z by {
        lemma_claims_vanish(
            k,
            shape,
            columns,
            point,
            air_alphas[a],
            row_alphas[0],
            parity_points[0],
            cell_link_points[0],
            link_points[0],
            mixes[0],
            etas,
        );
    }
    assert forall|c: int| 0 <= c < cell_link_points.len() implies wiring::cell_link_total(
        shape,
        v,
        #[trigger] cell_link_points[c],
    ) == z by {
        lemma_claims_vanish(
            k,
            shape,
            columns,
            low,
            air_alphas[0],
            row_alphas[0],
            parity_points[0],
            cell_link_points[c],
            link_points[0],
            mixes[0],
            etas,
        );
    }
    assert forall|r: int, p: int, l: int|
        0 <= r < row_alphas.len() && 0 <= p < parity_points.len() && 0 <= l < link_points.len() implies
        #[trigger] both_vanish(shape, v, row_alphas[r], parity_points[p], link_points[l]) by {
        lemma_unmixed(
            k,
            shape,
            columns,
            low,
            air_alphas[0],
            row_alphas[r],
            parity_points[p],
            cell_link_points[0],
            link_points[l],
            mixes,
            etas,
        );
    }
    assert forall|l: int| 0 <= l < link_points.len() implies wiring::link_total(shape, v, #[trigger] link_points[l])
        == z by {
        assert(both_vanish(shape, v, row_alphas[0], parity_points[0], link_points[l]));
    }
    assert forall|x: int, i: int| 0 <= x < shape.total_rows() && 0 <= i < 76 implies
        #[trigger] air::constraints_spec(k, extraction::row_of(v, x))[i] == F::zero_spec() by {
        law_vanishing_hash_claims_satisfy(k, columns, air_alphas, low, high, x, i);
    }
    assert forall|x: int, c: int| shape.systematic_start() <= x < shape.total_rows() && 0 <= c < 16 implies
        #[trigger] wiring::linked(shape, v, x, c) by {
        wiring::law_vanishing_links_hold(shape, v, link_points, x, c);
    }
    assert forall|x: int, l: int|
        0 <= x < shape.systematic_start() && x % (shape.chunks() as int) < shape.chunks() - 1 && 0 <= l < 8 implies
        #[trigger] wiring::stepped(v, x, l) by {
        wiring::law_vanishing_cell_links_hold(shape, v, cell_link_points, x, l);
    }
    extraction::law_satisfying_columns_commit(k, shape, v);
    assert forall|row: int| 0 <= row < shape.n_rows implies exists|m: Seq<EF>|
        m.len() == shape.message_len() && honest::word_of(#[trigger] data[row]) == #[trigger] ntt::codeword_spec(
            m,
        ) by {
        if forall|m: Seq<EF>|
            m.len() == shape.message_len() ==> honest::word_of(data[row]) != #[trigger] ntt::codeword_spec(m) {
            let at = refusal::law_non_codeword_is_detected(k, shape, data, row, row_alphas, parity_points);
            let (r, p) = at;
            assert(both_vanish(shape, v, row_alphas[r], parity_points[p], link_points[0]));
            extraction::law_held_parity(k, shape, v, row_alphas[r], parity_points[p]);
            assert(false);
        }
    }
    assert forall|c: int, x: int| 0 <= c < 92 && 0 <= x < shape.total_rows() implies #[trigger] columns[c]@[x]
        == hash_table::table_value(k, shape, data, c, x) by {
        assert(v(c, x) == hash_table::table_value(k, shape, data, c, x));
    }
    assert(Seq::new(8, |l: int| columns[84 + l]@[shape.final_row()]) =~= Seq::new(
        8,
        |l: int| v(84 + l, shape.final_row()),
    ));
}

/// Whether the link claim and the parity claim vanish.
spec fn both_vanish(
    shape: LeanAirShape,
    v: spec_fn(int, int) -> F,
    row_alpha: EF,
    parity_point: EF,
    link_point: EF,
) -> bool {
    &&& wiring::link_total(shape, v, link_point) == EF::zero_spec()
    &&& wiring::parity_total(shape, v, row_alpha, parity_point) == EF::zero_spec()
}

/// Where the sum vanishes for two mixing challenges too, the link claim and the parity claim do.
proof fn lemma_unmixed(
    k: PoseidonConstants,
    shape: LeanAirShape,
    columns: Seq<Vec<F>>,
    eq_point: Seq<EF>,
    air_alpha: EF,
    row_alpha: EF,
    parity_point: EF,
    cell_link_point: EF,
    link_point: EF,
    mixes: Seq<EF>,
    etas: Seq<EF>,
)
    requires
        mixes.len() == 2,
        poly::apart(mixes),
        etas.len() == 3,
        poly::apart(etas),
        forall|m: int, e: int|
            0 <= m < 2 && 0 <= e < 3 ==> batch_total(
                k,
                shape,
                columns,
                eq_point,
                air_alpha,
                row_alpha,
                parity_point,
                cell_link_point,
                link_point,
                #[trigger] mixes[m],
                #[trigger] etas[e],
            ) == EF::zero_spec(),
    ensures
        both_vanish(shape, values_of(columns), row_alpha, parity_point, link_point),
{
    let v = values_of(columns);
    let link = wiring::link_total(shape, v, link_point);
    let parity = wiring::parity_total(shape, v, row_alpha, parity_point);
    wiring::lemma_totals_canonical(shape, v, row_alpha, parity_point, cell_link_point, link_point, mixes[0]);
    assert forall|m: int| 0 <= m < 2 implies parity + (#[trigger] mixes[m]) * link == EF::zero_spec() by {
        let mix = mixes[m];
        lemma_claims_vanish(
            k,
            shape,
            columns,
            eq_point,
            air_alpha,
            row_alpha,
            parity_point,
            cell_link_point,
            link_point,
            mix,
            etas,
        );
        wiring::lemma_mixed_total(shape, v, row_alpha, parity_point, link_point, mix);
        ext::lemma_mul_comm(link, mix);
        ext::lemma_add_comm(link * mix, parity);
    }
    mle::lemma_flat(parity, link, mixes[0], mixes[1]);
}

} // verus!
