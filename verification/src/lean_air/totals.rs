//! The sums over the table that the proof claims to be zero.
use super::air;
use super::air::LeanAirDedicatedHashAir;
use super::claims;
use super::coefficients;
use super::hash_table;
use super::hash_table::LeanAirDedicatedHashTable;
use super::hom;
use super::honest;
use super::links;
use super::shape::LeanAirShape;
use super::sparse;
use super::sparse::SparseCoeff;
use crate::algebra::Ring;
use crate::ext;
use crate::ext::EF;
use crate::field::{F, TWO_ADICITY};
use crate::mle;
use crate::poseidon::PoseidonConstants;
use crate::sums;
use vstd::arithmetic::power2::*;
use vstd::prelude::*;

verus! {

/// Row `row` of a set of columns, in the extension.
pub open spec fn lifted_row(columns: Seq<Vec<F>>, row: int) -> Seq<EF> {
    Seq::new(columns.len(), |c: int| EF::from_base_spec(columns[c]@[row]))
}

/// The combined constraints of all rows, weighted by the equality polynomial.
pub open spec fn air_sum_spec(k: PoseidonConstants, columns: Seq<Vec<F>>, eq_point: Seq<EF>, alphas: Seq<EF>) -> EF {
    sums::sum(
        pow2(eq_point.len()),
        |row: int|
            mle::eq_weight(eq_point, row) * air::combined_constraints(k, alphas, lifted_row(columns, row)),
    )
}

/// One row of the table, in the extension.
fn read_lifted_row(table: &LeanAirDedicatedHashTable, row: usize) -> (r: Vec<EF>)
    requires
        table.wf(),
        row < table.schedule.padded_rows,
    ensures
        r@ == lifted_row(table.columns@, row as int),
{
    let mut out: Vec<EF> = Vec::new();
    let mut c: usize = 0;
    while c < table.columns.len()
        invariant
            table.wf(),
            row < table.schedule.padded_rows,
            c <= table.columns@.len(),
            out@.len() == c,
            forall|i: int| 0 <= i < c ==> #[trigger] out@[i] == EF::from_base_spec(table.columns@[i]@[row as int]),
        decreases table.columns@.len() - c,
    {
        out.push(EF::from_base(table.columns[c][row]));
        c = c + 1;
    }
    assert(out@ =~= lifted_row(table.columns@, row as int));
    out
}

/// The combined constraints of all rows of the table, weighted by the equality polynomial.
pub fn weighted_air_sum(
    k: &PoseidonConstants,
    table: &LeanAirDedicatedHashTable,
    eq_point: &Vec<EF>,
    alphas: &Vec<EF>,
) -> (r: EF)
    requires
        table.wf(),
        table.schedule.padded_rows == pow2(eq_point@.len()),
        alphas@.len() >= 76,
    ensures
        r == air_sum_spec(*k, table.columns@, eq_point@, alphas@),
{
    let weights = mle::eval_eq(eq_point);
    let air = LeanAirDedicatedHashAir;
    let ghost f = |row: int|
        mle::eq_weight(eq_point@, row) * air::combined_constraints(*k, alphas@, lifted_row(table.columns@, row));
    let n: usize = table.schedule.padded_rows;
    let mut acc = EF::zero();
    let mut row: usize = 0;
    while row < n
        invariant
            row <= n,
            table.wf(),
            n == table.schedule.padded_rows,
            alphas@.len() >= 76,
            weights@.len() == n,
            forall|i: int| 0 <= i < n ==> #[trigger] weights@[i] == mle::eq_weight(eq_point@, i),
            f == (|row: int|
                mle::eq_weight(eq_point@, row) * air::combined_constraints(
                    *k,
                    alphas@,
                    lifted_row(table.columns@, row),
                )),
            acc == sums::sum(row as nat, f),
        decreases n - row,
    {
        let point = read_lifted_row(table, row);
        let value = air.eval_extension(k, &point, alphas);
        acc = acc.add(weights[row].mul(value));
        row = row + 1;
    }
    acc
}

/// The inclusion of the base field keeps the operations.
pub proof fn lemma_from_base_keeps_operations()
    ensures
        hom::keeps_operations(|a: F| EF::from_base_spec(a)),
{
    let h = |a: F| EF::from_base_spec(a);
    assert forall|a: F, b: F| #[trigger] h(a.plus_spec(b)) == h(a).plus_spec(h(b)) by {
        ext::lemma_from_base_ring(a, b);
    }
    assert forall|a: F, b: F| #[trigger] h(a.minus_spec(b)) == h(a).minus_spec(h(b)) by {
        ext::lemma_from_base_ring(a, b);
    }
    assert forall|a: F, b: F| #[trigger] h(a.times_spec(b)) == h(a).times_spec(h(b)) by {
        ext::lemma_from_base_ring(a, b);
    }
    assert forall|a: F, k: F| #[trigger] h(a.plus_base_spec(k)) == h(a).plus_base_spec(k) by {
        ext::lemma_from_base_ring(a, k);
    }
    assert forall|a: F, k: F| #[trigger] h(a.times_base_spec(k)) == h(a).times_base_spec(k) by {
        ext::lemma_from_base_ring(a, k);
    }
}

/// The weighted constraints of a table that was built from any rows sum to zero, whatever the
/// equality point and the batching challenges.
pub proof fn law_honest_air_sum(
    k: PoseidonConstants,
    shape: LeanAirShape,
    data: Seq<Seq<F>>,
    table: LeanAirDedicatedHashTable,
    eq_point: Seq<EF>,
    alphas: Seq<EF>,
)
    requires
        shape.valid(),
        links::full_rows(shape, data),
        table.holds(k, shape, data),
        shape.table_rows() == pow2(eq_point.len()),
    ensures
        air_sum_spec(k, table.columns@, eq_point, alphas) == EF::zero_spec(),
{
    let z = EF::zero_spec();
    let f = |row: int|
        mle::eq_weight(eq_point, row) * air::combined_constraints(k, alphas, lifted_row(table.columns@, row));
    assert forall|row: int| 0 <= row < shape.table_rows() implies #[trigger] f(row) == z by {
        lemma_honest_row(k, shape, data, table, alphas, row);
        ext::lemma_mul_zero(mle::eq_weight(eq_point, row));
    }
    sums::lemma_sum_zero(shape.table_rows(), f);
}

/// The combined constraints on one row of such a table are zero.
proof fn lemma_honest_row(
    k: PoseidonConstants,
    shape: LeanAirShape,
    data: Seq<Seq<F>>,
    table: LeanAirDedicatedHashTable,
    alphas: Seq<EF>,
    row: int,
)
    requires
        shape.valid(),
        links::full_rows(shape, data),
        table.holds(k, shape, data),
        0 <= row < shape.table_rows(),
    ensures
        air::combined_constraints(k, alphas, lifted_row(table.columns@, row)) == EF::zero_spec(),
{
    let z = EF::zero_spec();
    let input = hash_table::table_input(k, shape, data, row);
    if row < shape.total_rows() {
        honest::lemma_row_input_len(k, shape, data, row);
    }
    let trace = crate::poseidon::trace_spec(k, input);
    honest::lemma_trace_columns(k, input);
    let h = |a: F| EF::from_base_spec(a);
    assert(lifted_row(table.columns@, row) =~= hom::mapped(h, trace)) by {
        assert forall|c: int| 0 <= c < 92 implies #[trigger] lifted_row(table.columns@, row)[c] == hom::mapped(
            h,
            trace,
        )[c] by {
            assert(table.columns@[c]@[row] == hash_table::table_value(k, shape, data, c, row));
        }
    }
    air::law_honest_row_satisfies_constraints(k, input);
    lemma_from_base_keeps_operations();
    hom::lemma_map_constraints(h, k, trace);
    let g = |i: int| alphas[i] * air::constraints_spec(k, lifted_row(table.columns@, row))[i];
    assert forall|i: int| 0 <= i < 76 implies #[trigger] g(i) == z by {
        assert(air::constraints_spec(k, trace)[i] == F::zero_spec());
        ext::lemma_mul_zero(alphas[i]);
    }
    sums::lemma_sum_zero(76, g);
}

/// Of a table that was built from any rows, the sum of the claim on the steps of cell hashes is
/// zero, for the coefficients of any challenge.
pub proof fn law_honest_cell_link_sum(
    k: PoseidonConstants,
    shape: LeanAirShape,
    data: Seq<Seq<F>>,
    table: LeanAirDedicatedHashTable,
    point: EF,
    indexes: Seq<usize>,
    coeffs: Seq<Vec<EF>>,
)
    requires
        shape.valid(),
        links::full_rows(shape, data),
        table.holds(k, shape, data),
        indexes.len() == 16,
        forall|slot: int| 0 <= slot < 16 ==> #[trigger] indexes[slot] == claims::cell_link_column_of(slot),
        coeffs.len() == 16,
        forall|slot: int| 0 <= slot < 16 ==> (#[trigger] coeffs[slot])@.len() == shape.table_rows(),
        forall|slot: int, row: int|
            0 <= slot < 16 && 0 <= row < shape.table_rows() ==> #[trigger] coeffs[slot]@[row]
                == coefficients::cell_link_coeff(shape, point, slot, row),
    ensures
        claims::dense_sum_spec(table.columns@, indexes, coeffs) == EF::zero_spec(),
{
    honest::law_cell_links_hold(k, shape, data, point);
    let n: nat = shape.table_rows();
    let f = |s: int|
        sums::sum(
            coeffs[s]@.len(),
            |row: int| coeffs[s]@[row].scale_spec(table.columns@[indexes[s] as int]@[row]),
        );
    let g = |slot: int| honest::cell_link_claim(k, shape, data, point, slot);
    assert forall|slot: int| 0 <= slot < 16 implies #[trigger] f(slot) == g(slot) by {
        let a = |row: int| coeffs[slot]@[row].scale_spec(table.columns@[indexes[slot] as int]@[row]);
        let b = |row: int|
            coefficients::cell_link_coeff(shape, point, slot, row).scale_spec(
                hash_table::table_value(k, shape, data, claims::cell_link_column_of(slot), row),
            );
        assert forall|row: int| 0 <= row < n implies #[trigger] a(row) == b(row) by {
            let c: int = claims::cell_link_column_of(slot);
            assert(indexes[slot] == c);
            assert(table.columns@[c]@[row] == hash_table::table_value(k, shape, data, c, row));
        }
        sums::lemma_sum_ext(n, a, b);
    }
    sums::lemma_sum_ext(16, f, g);
}

/// Of a table that was built from any rows, the sum of the mixed claim is the parity claim, for the
/// coefficients of any challenges.
pub proof fn law_mixed_sum_is_parity(
    k: PoseidonConstants,
    shape: LeanAirShape,
    data: Seq<Seq<F>>,
    table: LeanAirDedicatedHashTable,
    alpha: EF,
    parity_point: EF,
    link_point: EF,
    link_mix: EF,
    indexes: Seq<usize>,
    coeffs: Seq<Vec<SparseCoeff>>,
)
    requires
        shape.valid(),
        links::full_rows(shape, data),
        table.holds(k, shape, data),
        indexes.len() == 24,
        forall|slot: int| 0 <= slot < 24 ==> #[trigger] indexes[slot] == claims::link_column(slot),
        coeffs.len() == 24,
        forall|slot: int|
            0 <= slot < 24 ==> sparse::rows_below((#[trigger] coeffs[slot])@, shape.table_rows() as int),
        forall|slot: int, row: int|
            0 <= slot < 24 && 0 <= row < shape.table_rows() ==> #[trigger] sparse::value_at(coeffs[slot]@, row)
                == claims::mixed_coeff(shape, alpha, parity_point, link_point, link_mix, slot, row),
    ensures
        claims::sparse_sum_spec(table.columns@, indexes, coeffs) == sums::sum(
            16,
            |slot: int| honest::parity_claim(k, shape, data, alpha, parity_point, slot),
        ),
{
    honest::law_mixed_claim_is_parity(k, shape, data, alpha, parity_point, link_point, link_mix);
    let n: nat = shape.table_rows();
    let f = |s: int|
        sums::sum(
            coeffs[s]@.len(),
            |i: int| coeffs[s]@[i].coeff.scale_spec(table.columns@[indexes[s] as int]@[coeffs[s]@[i].row as int]),
        );
    let g = |slot: int|
        honest::mixed_claim(k, shape, data, alpha, parity_point, link_point, link_mix, slot);
    assert forall|slot: int| 0 <= slot < 24 implies #[trigger] f(slot) == g(slot) by {
        let column = coeffs[slot]@;
        let c: int = claims::link_column(slot);
        assert(indexes[slot] == c);
        let value = |row: int| table.columns@[c]@[row];
        let v = |row: int| EF::from_base_spec(value(row));
        sparse::lemma_column_sum(column, n, v);
        let terms = |i: int| column[i].coeff * v(column[i].row as int);
        let scaled = |i: int|
            coeffs[slot]@[i].coeff.scale_spec(table.columns@[indexes[slot] as int]@[coeffs[slot]@[i].row as int]);
        assert forall|i: int| 0 <= i < column.len() implies #[trigger] scaled(i) == terms(i) by {
            ext::lemma_scale_is_mul(column[i].coeff, value(column[i].row as int));
        }
        sums::lemma_sum_ext(column.len(), scaled, terms);
        let a = |row: int| sparse::value_at(column, row) * v(row);
        let b = |row: int|
            claims::mixed_coeff(shape, alpha, parity_point, link_point, link_mix, slot, row).scale_spec(
                hash_table::table_value(k, shape, data, claims::link_column(slot), row),
            );
        assert forall|row: int| 0 <= row < n implies #[trigger] a(row) == b(row) by {
            assert(sparse::value_at(coeffs[slot]@, row) == claims::mixed_coeff(
                shape,
                alpha,
                parity_point,
                link_point,
                link_mix,
                slot,
                row,
            ));
            assert(table.columns@[c]@[row] == hash_table::table_value(k, shape, data, c, row));
            ext::lemma_scale_is_mul(sparse::value_at(column, row), value(row));
        }
        sums::lemma_sum_ext(n, a, b);
    }
    sums::lemma_sum_ext(24, f, g);
}

/// Of a table that was built from codewords, the sum of the mixed claim is zero, for the
/// coefficients of any challenges.
pub proof fn law_honest_mixed_sum(
    k: PoseidonConstants,
    shape: LeanAirShape,
    data: Seq<Seq<F>>,
    messages: Seq<Seq<EF>>,
    table: LeanAirDedicatedHashTable,
    alpha: EF,
    parity_point: EF,
    link_point: EF,
    link_mix: EF,
    indexes: Seq<usize>,
    coeffs: Seq<Vec<SparseCoeff>>,
)
    requires
        shape.valid(),
        shape.log_m < TWO_ADICITY,
        honest::rows_of_codewords(shape, data, messages),
        table.holds(k, shape, data),
        indexes.len() == 24,
        forall|slot: int| 0 <= slot < 24 ==> #[trigger] indexes[slot] == claims::link_column(slot),
        coeffs.len() == 24,
        forall|slot: int|
            0 <= slot < 24 ==> sparse::rows_below((#[trigger] coeffs[slot])@, shape.table_rows() as int),
        forall|slot: int, row: int|
            0 <= slot < 24 && 0 <= row < shape.table_rows() ==> #[trigger] sparse::value_at(coeffs[slot]@, row)
                == claims::mixed_coeff(shape, alpha, parity_point, link_point, link_mix, slot, row),
    ensures
        claims::sparse_sum_spec(table.columns@, indexes, coeffs) == EF::zero_spec(),
{
    honest::lemma_codeword_rows_full(shape, data, messages);
    law_mixed_sum_is_parity(
        k,
        shape,
        data,
        table,
        alpha,
        parity_point,
        link_point,
        link_mix,
        indexes,
        coeffs,
    );
    honest::law_parity_holds(k, shape, data, messages, alpha, parity_point);
}

} // verus!
