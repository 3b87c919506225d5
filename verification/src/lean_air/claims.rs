//! The linear claims on the table: their mixture, their sums and the values of their coefficients.
use super::coefficients;
use super::hash_table::LeanAirDedicatedHashTable;
use super::parity;
use super::schedule;
use super::shape::LeanAirShape;
use super::sparse;
use super::sparse::SparseCoeff;
use crate::ext;
use crate::ext::EF;
use crate::field::{F, TWO_ADICITY};
use crate::mle;
use crate::poseidon::{
    DEDICATED_HASH_INPUT_START,
    DEDICATED_HASH_OUTPUT_START,
    DEDICATED_HASH_WIDTH,
    DIGEST_LEN,
};
use crate::sums;
use vstd::arithmetic::power2::*;
use vstd::prelude::*;

verus! {

/// The table column of a slot of the link claim.
pub open spec fn link_column(slot: int) -> int {
    if slot < 16 {
        slot
    } else {
        84 + slot - 16
    }
}

/// The table column of a slot of the claim on the steps of cell hashes.
pub open spec fn cell_link_column_of(slot: int) -> int {
    if slot < 8 {
        84 + slot
    } else {
        slot - 8
    }
}

/// The table columns of the link claim: the inputs, then the outputs.
pub fn link_column_indexes() -> (r: Vec<usize>)
    ensures
        r@.len() == 24,
        forall|slot: int| 0 <= slot < 24 ==> #[trigger] r@[slot] == link_column(slot),
{
    let mut out: Vec<usize> = Vec::new();
    let mut i: usize = 0;
    while i < DEDICATED_HASH_WIDTH
        invariant
            i <= 16,
            out@.len() == i,
            forall|slot: int| 0 <= slot < i ==> #[trigger] out@[slot] == link_column(slot),
        decreases 16 - i,
    {
        out.push(DEDICATED_HASH_INPUT_START + i);
        i = i + 1;
    }
    let mut i: usize = 0;
    while i < DIGEST_LEN
        invariant
            i <= 8,
            out@.len() == 16 + i,
            forall|slot: int| 0 <= slot < 16 + i ==> #[trigger] out@[slot] == link_column(slot),
        decreases 8 - i,
    {
        out.push(DEDICATED_HASH_OUTPUT_START + i);
        i = i + 1;
    }
    out
}

/// The table columns of the claim on the steps of cell hashes: the outputs, then the first half of
/// the inputs.
pub fn cell_link_column_indexes() -> (r: Vec<usize>)
    ensures
        r@.len() == 16,
        forall|slot: int| 0 <= slot < 16 ==> #[trigger] r@[slot] == cell_link_column_of(slot),
{
    let mut out: Vec<usize> = Vec::new();
    let mut i: usize = 0;
    while i < DIGEST_LEN
        invariant
            i <= 8,
            out@.len() == i,
            forall|slot: int| 0 <= slot < i ==> #[trigger] out@[slot] == cell_link_column_of(slot),
        decreases 8 - i,
    {
        out.push(DEDICATED_HASH_OUTPUT_START + i);
        i = i + 1;
    }
    let mut i: usize = 0;
    while i < DIGEST_LEN
        invariant
            i <= 8,
            out@.len() == 8 + i,
            forall|slot: int| 0 <= slot < 8 + i ==> #[trigger] out@[slot] == cell_link_column_of(slot),
        decreases 8 - i,
    {
        out.push(DEDICATED_HASH_INPUT_START + i);
        i = i + 1;
    }
    out
}

/// The slot of a table column in the link claim.
pub fn link_column_slot(column: usize) -> (r: usize)
    requires
        column < 16 || 84 <= column < 92,
    ensures
        r < 24,
        link_column(r as int) == column,
{
    if column < DEDICATED_HASH_INPUT_START + DEDICATED_HASH_WIDTH {
        column - DEDICATED_HASH_INPUT_START
    } else {
        DEDICATED_HASH_WIDTH + (column - DEDICATED_HASH_OUTPUT_START)
    }
}

/// The coefficient of the mixed claim in a slot: that of the link claim times the mixing challenge,
/// plus that of the parity claim in the input slots.
pub open spec fn mixed_coeff(
    shape: LeanAirShape,
    alpha: EF,
    parity_point: EF,
    link_point: EF,
    link_mix: EF,
    slot: int,
    row: int,
) -> EF {
    let link = coefficients::link_coeff(shape, link_point, slot, row) * link_mix;
    if slot < 16 {
        link + coefficients::parity_coeff(shape, alpha, parity_point, slot, row)
    } else {
        link
    }
}

/// Mixes the columns of the link claim with those of the parity claim.
pub fn mixed_sparse_linear_coefficients(
    parity_coefficients: &Vec<Vec<SparseCoeff>>,
    link_coefficients: Vec<Vec<SparseCoeff>>,
    link_mix: EF,
) -> (r: Vec<Vec<SparseCoeff>>)
    requires
        parity_coefficients@.len() == 16,
        link_coefficients@.len() == 24,
        forall|c: int| 0 <= c < 16 ==> sparse::strictly_sorted((#[trigger] parity_coefficients@[c])@),
        forall|c: int| 0 <= c < 24 ==> sparse::strictly_sorted((#[trigger] link_coefficients@[c])@),
    ensures
        r@.len() == 24,
        forall|c: int| 0 <= c < 24 ==> sparse::strictly_sorted((#[trigger] r@[c])@),
        forall|c: int, row: int|
            0 <= c < 24 ==> #[trigger] sparse::value_at(r@[c]@, row) == (if c < 16 {
                sparse::value_at(link_coefficients@[c]@, row) * link_mix + sparse::value_at(
                    parity_coefficients@[c]@,
                    row,
                )
            } else {
                sparse::value_at(link_coefficients@[c]@, row) * link_mix
            }),
        forall|c: int, row: int|
            0 <= c < 24 ==> (#[trigger] sparse::listed(r@[c]@, row) <==> ({
                let in_link = sparse::listed(link_coefficients@[c]@, row);
                let in_parity = c < 16 && sparse::listed(parity_coefficients@[c]@, row);
                (in_link || in_parity) && !(in_link && in_parity && sparse::value_at(r@[c]@, row) == EF::zero_spec())
            })),
{
    let mut link = link_coefficients;
    let ghost old_link = link@;
    let mut out: Vec<Vec<SparseCoeff>> = Vec::new();
    let mut c: usize = 0;
    while c < 24
        invariant
            c <= 24,
            parity_coefficients@.len() == 16,
            old_link.len() == 24,
            link@.len() == 24,
            forall|i: int| c <= i < 24 ==> #[trigger] link@[i] == old_link[i],
            forall|i: int| 0 <= i < 16 ==> sparse::strictly_sorted((#[trigger] parity_coefficients@[i])@),
            forall|i: int| 0 <= i < 24 ==> sparse::strictly_sorted((#[trigger] old_link[i])@),
            out@.len() == c,
            forall|i: int| 0 <= i < c ==> sparse::strictly_sorted((#[trigger] out@[i])@),
            forall|i: int, row: int|
                0 <= i < c ==> #[trigger] sparse::value_at(out@[i]@, row) == (if i < 16 {
                    sparse::value_at(old_link[i]@, row) * link_mix + sparse::value_at(
                        parity_coefficients@[i]@,
                        row,
                    )
                } else {
                    sparse::value_at(old_link[i]@, row) * link_mix
                }),
            forall|i: int, row: int|
                0 <= i < c ==> (#[trigger] sparse::listed(out@[i]@, row) <==> ({
                    let in_link = sparse::listed(old_link[i]@, row);
                    let in_parity = i < 16 && sparse::listed(parity_coefficients@[i]@, row);
                    (in_link || in_parity) && !(in_link && in_parity && sparse::value_at(out@[i]@, row)
                        == EF::zero_spec())
                })),
        decreases 24 - c,
    {
        let mut column: Vec<SparseCoeff> = Vec::new();
        std::mem::swap(&mut column, &mut link[c]);
        let ghost unscaled = column@;
        sparse::scale_column(&mut column, link_mix);
        let ghost scaled = column@;
        proof {
            assert(unscaled == old_link[c as int]@);
            assert(sparse::strictly_sorted(scaled)) by {
                assert forall|i: int, j: int| 0 <= i < j < scaled.len() implies #[trigger] scaled[i].row
                    < #[trigger] scaled[j].row by {
                    assert(unscaled[i].row < unscaled[j].row);
                }
            }
            assert forall|row: int| #[trigger] sparse::listed(scaled, row) <==> sparse::listed(unscaled, row) by {
                if sparse::listed(unscaled, row) {
                    let i = choose|i: int| 0 <= i < unscaled.len() && #[trigger] unscaled[i].row == row;
                    assert(scaled[i].row == row);
                }
                if sparse::listed(scaled, row) {
                    let i = choose|i: int| 0 <= i < scaled.len() && #[trigger] scaled[i].row == row;
                    assert(unscaled[i].row == row);
                }
            }
        }
        if c < 16 {
            sparse::merge_sorted_sparse_columns(&mut column, &parity_coefficients[c]);
        }
        out.push(column);
        c = c + 1;
    }
    out
}

/// The sum of dense columns of coefficients against columns of the table.
pub open spec fn dense_sum_spec(columns: Seq<Vec<F>>, indexes: Seq<usize>, coeffs: Seq<Vec<EF>>) -> EF {
    sums::sum(
        coeffs.len(),
        |s: int|
            sums::sum(
                coeffs[s]@.len(),
                |row: int| coeffs[s]@[row].scale_spec(columns[indexes[s] as int]@[row]),
            ),
    )
}

/// The sum of sparse columns of coefficients against columns of the table.
pub open spec fn sparse_sum_spec(columns: Seq<Vec<F>>, indexes: Seq<usize>, coeffs: Seq<Vec<SparseCoeff>>) -> EF {
    sums::sum(
        coeffs.len(),
        |s: int|
            sums::sum(
                coeffs[s]@.len(),
                |i: int| coeffs[s]@[i].coeff.scale_spec(columns[indexes[s] as int]@[coeffs[s]@[i].row as int]),
            ),
    )
}

/// The sum of dense columns of coefficients against columns of the table.
pub fn dense_linear_sum(
    table: &LeanAirDedicatedHashTable,
    column_indexes: &Vec<usize>,
    coefficients: &Vec<Vec<EF>>,
) -> (r: EF)
    requires
        table.wf(),
        column_indexes@.len() == coefficients@.len(),
        forall|s: int| 0 <= s < column_indexes@.len() ==> (#[trigger] column_indexes@[s]) < 92,
        forall|s: int|
            0 <= s < coefficients@.len() ==> (#[trigger] coefficients@[s])@.len() <= table.schedule.padded_rows,
    ensures
        r == dense_sum_spec(table.columns@, column_indexes@, coefficients@),
{
    let ghost f = |s: int|
        sums::sum(
            coefficients@[s]@.len(),
            |row: int| coefficients@[s]@[row].scale_spec(table.columns@[column_indexes@[s] as int]@[row]),
        );
    let mut total = EF::zero();
    let mut s: usize = 0;
    while s < coefficients.len()
        invariant
            table.wf(),
            s <= coefficients@.len(),
            column_indexes@.len() == coefficients@.len(),
            forall|s: int| 0 <= s < column_indexes@.len() ==> (#[trigger] column_indexes@[s]) < 92,
            forall|s: int|
                0 <= s < coefficients@.len() ==> (#[trigger] coefficients@[s])@.len() <= table.schedule.padded_rows,
            f == (|s: int|
                sums::sum(
                    coefficients@[s]@.len(),
                    |row: int| coefficients@[s]@[row].scale_spec(table.columns@[column_indexes@[s] as int]@[row]),
                )),
            total == sums::sum(s as nat, f),
        decreases coefficients@.len() - s,
    {
        let coeffs = &coefficients[s];
        let values = &table.columns[column_indexes[s]];
        let ghost g = |row: int| coeffs@[row].scale_spec(values@[row]);
        let mut acc = EF::zero();
        let mut row: usize = 0;
        while row < coeffs.len()
            invariant
                row <= coeffs@.len(),
                coeffs@.len() <= values@.len(),
                g == (|row: int| coeffs@[row].scale_spec(values@[row])),
                acc == sums::sum(row as nat, g),
            decreases coeffs@.len() - row,
        {
            acc = acc.add(coeffs[row].scale(values[row]));
            row = row + 1;
        }
        proof {
            sums::lemma_sum_ext(
                coeffs@.len(),
                g,
                |row: int|
                    coefficients@[s as int]@[row].scale_spec(table.columns@[column_indexes@[s as int] as int]@[row]),
            );
        }
        total = total.add(acc);
        s = s + 1;
    }
    total
}

/// The sum of sparse columns of coefficients against columns of the table.
pub fn sparse_linear_sum(
    table: &LeanAirDedicatedHashTable,
    column_indexes: &Vec<usize>,
    coefficients: &Vec<Vec<SparseCoeff>>,
) -> (r: EF)
    requires
        table.wf(),
        column_indexes@.len() == coefficients@.len(),
        forall|s: int| 0 <= s < column_indexes@.len() ==> (#[trigger] column_indexes@[s]) < 92,
        forall|s: int|
            0 <= s < coefficients@.len() ==> sparse::rows_below(
                (#[trigger] coefficients@[s])@,
                table.schedule.padded_rows as int,
            ),
    ensures
        r == sparse_sum_spec(table.columns@, column_indexes@, coefficients@),
{
    let ghost f = |s: int|
        sums::sum(
            coefficients@[s]@.len(),
            |i: int|
                coefficients@[s]@[i].coeff.scale_spec(
                    table.columns@[column_indexes@[s] as int]@[coefficients@[s]@[i].row as int],
                ),
        );
    let mut total = EF::zero();
    let mut s: usize = 0;
    while s < coefficients.len()
        invariant
            table.wf(),
            s <= coefficients@.len(),
            column_indexes@.len() == coefficients@.len(),
            forall|s: int| 0 <= s < column_indexes@.len() ==> (#[trigger] column_indexes@[s]) < 92,
            forall|s: int|
                0 <= s < coefficients@.len() ==> sparse::rows_below(
                    (#[trigger] coefficients@[s])@,
                    table.schedule.padded_rows as int,
                ),
            f == (|s: int|
                sums::sum(
                    coefficients@[s]@.len(),
                    |i: int|
                        coefficients@[s]@[i].coeff.scale_spec(
                            table.columns@[column_indexes@[s] as int]@[coefficients@[s]@[i].row as int],
                        ),
                )),
            total == sums::sum(s as nat, f),
        decreases coefficients@.len() - s,
    {
        let coeffs = &coefficients[s];
        let values = &table.columns[column_indexes[s]];
        let ghost g = |i: int| coeffs@[i].coeff.scale_spec(values@[coeffs@[i].row as int]);
        let mut acc = EF::zero();
        let mut i: usize = 0;
        while i < coeffs.len()
            invariant
                i <= coeffs@.len(),
                sparse::rows_below(coeffs@, values@.len() as int),
                g == (|i: int| coeffs@[i].coeff.scale_spec(values@[coeffs@[i].row as int])),
                acc == sums::sum(i as nat, g),
            decreases coeffs@.len() - i,
        {
            let term = coeffs[i];
            acc = acc.add(term.coeff.scale(values[term.row]));
            i = i + 1;
        }
        proof {
            sums::lemma_sum_ext(
                coeffs@.len(),
                g,
                |i: int|
                    coefficients@[s as int]@[i].coeff.scale_spec(
                        table.columns@[column_indexes@[s as int] as int]@[coefficients@[s as int]@[i].row as int],
                    ),
            );
        }
        total = total.add(acc);
        s = s + 1;
    }
    total
}

/// The sum of the terms of a column against weights.
fn column_eval(column: &Vec<SparseCoeff>, weights: &Vec<EF>, Ghost(coeff): Ghost<spec_fn(int) -> EF>) -> (r: EF)
    requires
        sparse::lists(column@, weights@.len() as int, coeff),
    ensures
        r == weighed(coeff, weights@),
{
    let ghost f = |i: int| column@[i].coeff * weights@[column@[i].row as int];
    let mut acc = EF::zero();
    let mut i: usize = 0;
    while i < column.len()
        invariant
            i <= column@.len(),
            sparse::rows_below(column@, weights@.len() as int),
            f == (|i: int| column@[i].coeff * weights@[column@[i].row as int]),
            acc == sums::sum(i as nat, f),
        decreases column@.len() - i,
    {
        let term = column[i];
        acc = acc.add(term.coeff.mul(weights[term.row]));
        i = i + 1;
    }
    proof {
        law_terms_weigh_coefficients(column@, coeff, weights@);
    }
    acc
}

/// The point in reverse.
pub fn reversed_point(point: &Vec<EF>) -> (r: Vec<EF>)
    ensures
        r@ == point@.reverse(),
{
    let n: usize = point.len();
    let mut out: Vec<EF> = Vec::new();
    let mut i: usize = 0;
    while i < n
        invariant
            i <= n,
            n == point@.len(),
            out@.len() == i,
            forall|k: int| 0 <= k < i ==> #[trigger] out@[k] == point@[n - 1 - k],
        decreases n - i,
    {
        out.push(point[n - 1 - i]);
        i = i + 1;
    }
    assert(out@ =~= point@.reverse());
    out
}

/// The coefficients of a claim in one slot, against weights of the rows.
pub open spec fn weighed(coeff: spec_fn(int) -> EF, weights: Seq<EF>) -> EF {
    sums::sum(weights.len(), |row: int| coeff(row) * weights[row])
}

/// The coefficients of the link claim in a slot.
pub open spec fn link_coeffs(shape: LeanAirShape, link_point: EF, slot: int) -> spec_fn(int) -> EF {
    |row: int| coefficients::link_coeff(shape, link_point, slot, row)
}

/// The coefficients of the claim on the steps of cell hashes in a slot.
pub open spec fn cell_link_coeffs(shape: LeanAirShape, cell_link_point: EF, slot: int) -> spec_fn(int) -> EF {
    |row: int| coefficients::cell_link_coeff(shape, cell_link_point, slot, row)
}

/// The terms of a sparse column against weights are the coefficients that it lists against them,
/// whatever the weights: the verifier's values are those of the prover's own columns.
pub proof fn law_terms_weigh_coefficients(column: Seq<SparseCoeff>, coeff: spec_fn(int) -> EF, weights: Seq<EF>)
    requires
        sparse::lists(column, weights.len() as int, coeff),
    ensures
        sums::sum(column.len(), |i: int| column[i].coeff * weights[column[i].row as int]) == weighed(coeff, weights),
{
    let v = |row: int| weights[row];
    sparse::lemma_column_sum(column, weights.len(), v);
    sums::lemma_sum_ext(
        column.len(),
        |i: int| column[i].coeff * v(column[i].row as int),
        |i: int| column[i].coeff * weights[column[i].row as int],
    );
    sums::lemma_sum_ext(
        weights.len(),
        |row: int| sparse::value_at(column, row) * v(row),
        |row: int| coeff(row) * weights[row],
    );
}

/// The link claim as the verifier evaluates it is that of the prover's own columns: what
/// [`add_link_coefficient_evals`] adds in a slot is the mixing challenge times the terms of the
/// column of [`coefficients::link_sparse_coefficients`] against the weights.
pub proof fn law_link_evals_are_of_columns(
    shape: LeanAirShape,
    link_point: EF,
    link_mix: EF,
    columns: Seq<Vec<SparseCoeff>>,
    weights: Seq<EF>,
    before: Seq<EF>,
    after: Seq<EF>,
    slot: int,
)
    requires
        columns.len() == 24,
        forall|s: int|
            0 <= s < 24 ==> sparse::lists(
                (#[trigger] columns[s])@,
                weights.len() as int,
                |row: int| coefficients::link_coeff(shape, link_point, s, row),
            ),
        link_evals_added(shape, link_point, link_mix, weights, before, after),
        0 <= slot < 24,
    ensures
        after[slot] == before[slot] + link_mix * sums::sum(
            columns[slot]@.len(),
            |i: int| columns[slot]@[i].coeff * weights[columns[slot]@[i].row as int],
        ),
{
    let column = columns[slot]@;
    assert(sparse::lists(
        columns[slot]@,
        weights.len() as int,
        |row: int| coefficients::link_coeff(shape, link_point, slot, row),
    ));
    law_terms_weigh_coefficients(column, link_coeffs(shape, link_point, slot), weights);
    assert(after[slot] == before[slot] + link_mix * weighed(link_coeffs(shape, link_point, slot), weights));
    sums::lemma_sum_ext(
        column.len(),
        |i: int| column[i].coeff * weights[column[i].row as int],
        |i: int| columns[slot]@[i].coeff * weights[columns[slot]@[i].row as int],
    );
}

/// Whether every slot has gained its coefficients of the link claim against weights, times the mixing
/// challenge.
pub open spec fn link_evals_added(
    shape: LeanAirShape,
    link_point: EF,
    link_mix: EF,
    weights: Seq<EF>,
    before: Seq<EF>,
    after: Seq<EF>,
) -> bool {
    &&& after.len() == before.len()
    &&& forall|slot: int|
        0 <= slot < 24 ==> #[trigger] after[slot] == before[slot] + link_mix * weighed(
            link_coeffs(shape, link_point, slot),
            weights,
        )
}

/// Adds the link claim, against weights of the rows and times the mixing challenge, to the values of
/// the slots.
pub fn add_link_coefficient_evals(
    evals: &mut Vec<EF>,
    shape: LeanAirShape,
    link_point: EF,
    link_mix: EF,
    poseidon_eq: &Vec<EF>,
)
    requires
        shape.valid(),
        shape.fits_rows(),
        old(evals)@.len() == 24,
        poseidon_eq@.len() >= shape.total_rows(),
    ensures
        link_evals_added(shape, link_point, link_mix, poseidon_eq@, old(evals)@, final(evals)@),
{
    let columns = coefficients::link_sparse_coefficients(shape, poseidon_eq.len(), link_point);
    let ghost before = evals@;
    let mut slot: usize = 0;
    while slot < 24
        invariant
            slot <= 24,
            columns@.len() == 24,
            forall|s: int|
                0 <= s < 24 ==> sparse::lists(
                    (#[trigger] columns@[s])@,
                    poseidon_eq@.len() as int,
                    |row: int| coefficients::link_coeff(shape, link_point, s, row),
                ),
            before.len() == 24,
            evals@.len() == 24,
            forall|s: int|
                0 <= s < slot ==> #[trigger] evals@[s] == before[s] + link_mix * weighed(
                    link_coeffs(shape, link_point, s),
                    poseidon_eq@,
                ),
            forall|s: int| slot <= s < 24 ==> #[trigger] evals@[s] == before[s],
        decreases 24 - slot,
    {
        assert(sparse::lists(
            columns@[slot as int]@,
            poseidon_eq@.len() as int,
            |row: int| coefficients::link_coeff(shape, link_point, slot as int, row),
        ));
        let eval = column_eval(&columns[slot], poseidon_eq, Ghost(link_coeffs(shape, link_point, slot as int)));
        let sum = evals[slot].add(link_mix.mul(eval));
        evals.set(slot, sum);
        slot = slot + 1;
    }
}

/// Adds the claim on the steps of cell hashes, against weights of the rows, to the values of the
/// slots.
pub fn add_cell_link_coefficient_evals(
    evals: &mut Vec<EF>,
    shape: LeanAirShape,
    cell_link_point: EF,
    poseidon_eq: &Vec<EF>,
)
    requires
        shape.valid(),
        shape.fits_rows(),
        old(evals)@.len() == 16,
        poseidon_eq@.len() >= shape.total_rows(),
    ensures
        final(evals)@.len() == 16,
        forall|slot: int|
            0 <= slot < 16 ==> #[trigger] final(evals)@[slot] == old(evals)@[slot] + weighed(
                cell_link_coeffs(shape, cell_link_point, slot),
                poseidon_eq@,
            ),
{
    let rows: usize = poseidon_eq.len();
    let columns = coefficients::cell_link_dense_coefficients(shape, rows, cell_link_point);
    let ghost before = evals@;
    let mut slot: usize = 0;
    while slot < 16
        invariant
            slot <= 16,
            rows == poseidon_eq@.len(),
            columns@.len() == 16,
            forall|s: int| 0 <= s < 16 ==> (#[trigger] columns@[s])@.len() == rows,
            forall|s: int, row: int|
                0 <= s < 16 && 0 <= row < rows ==> #[trigger] columns@[s]@[row] == coefficients::cell_link_coeff(
                    shape,
                    cell_link_point,
                    s,
                    row,
                ),
            before.len() == 16,
            evals@.len() == 16,
            forall|s: int|
                0 <= s < slot ==> #[trigger] evals@[s] == before[s] + weighed(
                    cell_link_coeffs(shape, cell_link_point, s),
                    poseidon_eq@,
                ),
            forall|s: int| slot <= s < 16 ==> #[trigger] evals@[s] == before[s],
        decreases 16 - slot,
    {
        let ghost g = cell_link_coeffs(shape, cell_link_point, slot as int);
        let ghost f = |row: int| g(row) * poseidon_eq@[row];
        let mut acc = EF::zero();
        let mut row: usize = 0;
        while row < rows
            invariant
                slot < 16,
                row <= rows,
                rows == poseidon_eq@.len(),
                columns@.len() == 16,
                forall|s: int| 0 <= s < 16 ==> (#[trigger] columns@[s])@.len() == rows,
                forall|row: int| 0 <= row < rows ==> #[trigger] columns@[slot as int]@[row] == g(row),
                f == (|row: int| g(row) * poseidon_eq@[row]),
                acc == sums::sum(row as nat, f),
            decreases rows - row,
        {
            acc = acc.add(columns[slot][row].mul(poseidon_eq[row]));
            row = row + 1;
        }
        let sum = evals[slot].add(acc);
        evals.set(slot, sum);
        slot = slot + 1;
    }
}

/// The values, at the point of the sumcheck, of the coefficient polynomials of the mixed claim; none
/// where the parity point is not outside the domain.
pub fn linear_coefficient_evals_from_schedule(
    shape: LeanAirShape,
    poseidon_rows: usize,
    row_coeff_alpha: EF,
    parity_point: EF,
    link_point: EF,
    link_mix: EF,
    sumcheck_point: &Vec<EF>,
) -> (r: Option<Vec<EF>>)
    requires
        shape.valid(),
        shape.fits_rows(),
        shape.log_m < TWO_ADICITY,
        poseidon_rows >= shape.total_rows(),
        poseidon_rows == pow2(sumcheck_point@.len()),
    ensures
        r is Some <==> parity::outside_domain(shape.log_m as nat, parity_point),
        r matches Some(evals) ==> evals@.len() == 24 && forall|slot: int|
            0 <= slot < 24 ==> #[trigger] evals@[slot] == mle::mle_at(
                |row: int|
                    mixed_coeff(shape, row_coeff_alpha, parity_point, link_point, link_mix, slot, row),
                sumcheck_point@.reverse(),
            ),
{
    let parity_columns = match coefficients::parity_sparse_coefficients(
        shape,
        poseidon_rows,
        row_coeff_alpha,
        parity_point,
    ) {
        Some(columns) => columns,
        None => {
            return None;
        },
    };
    let point = reversed_point(sumcheck_point);
    let weights = mle::eval_eq(&point);
    let ghost par = |slot: int|
        weighed(|row: int| coefficients::parity_coeff(shape, row_coeff_alpha, parity_point, slot, row), weights@);
    let mut evals: Vec<EF> = Vec::new();
    let mut slot: usize = 0;
    while slot < 24
        invariant
            slot <= 24,
            weights@.len() == poseidon_rows,
            parity_columns@.len() == 16,
            forall|c: int|
                0 <= c < 16 ==> sparse::lists(
                    (#[trigger] parity_columns@[c])@,
                    poseidon_rows as int,
                    |row: int| coefficients::parity_coeff(shape, row_coeff_alpha, parity_point, c, row),
                ),
            par == (|slot: int|
                weighed(
                    |row: int| coefficients::parity_coeff(shape, row_coeff_alpha, parity_point, slot, row),
                    weights@,
                )),
            evals@.len() == slot,
            forall|s: int|
                0 <= s < slot ==> #[trigger] evals@[s] == if s < 16 {
                    par(s)
                } else {
                    EF::zero_spec()
                },
        decreases 24 - slot,
    {
        if slot < 16 {
            let ghost g = |row: int|
                coefficients::parity_coeff(shape, row_coeff_alpha, parity_point, slot as int, row);
            let eval = column_eval(&parity_columns[slot], &weights, Ghost(g));
            assert(eval == par(slot as int));
            evals.push(eval);
        } else {
            evals.push(EF::zero());
        }
        slot = slot + 1;
    }
    let ghost before = evals@;
    add_link_coefficient_evals(&mut evals, shape, link_point, link_mix, &weights);
    proof {
        assert forall|slot: int| 0 <= slot < 24 implies #[trigger] evals@[slot] == mle::mle_at(
            |row: int| mixed_coeff(shape, row_coeff_alpha, parity_point, link_point, link_mix, slot, row),
            sumcheck_point@.reverse(),
        ) by {
            lemma_mixed_eval(
                shape,
                row_coeff_alpha,
                parity_point,
                link_point,
                link_mix,
                slot,
                weights@,
                point@,
            );
        }
    }
    Some(evals)
}

/// The value of the coefficient polynomial of a slot of the mixed claim, from those of the claims that
/// it mixes.
proof fn lemma_mixed_eval(
    shape: LeanAirShape,
    row_coeff_alpha: EF,
    parity_point: EF,
    link_point: EF,
    link_mix: EF,
    slot: int,
    weights: Seq<EF>,
    point: Seq<EF>,
)
    requires
        weights.len() == pow2(point.len()),
        forall|i: int| 0 <= i < weights.len() ==> #[trigger] weights[i] == mle::eq_weight(point, i),
    ensures
        mle::mle_at(
            |row: int| mixed_coeff(shape, row_coeff_alpha, parity_point, link_point, link_mix, slot, row),
            point,
        ) == (if slot < 16 {
            weighed(|row: int| coefficients::parity_coeff(shape, row_coeff_alpha, parity_point, slot, row), weights)
        } else {
            EF::zero_spec()
        }) + link_mix * weighed(link_coeffs(shape, link_point, slot), weights),
{
    let n: nat = weights.len();
    let g = link_coeffs(shape, link_point, slot);
    let link = |row: int| g(row) * weights[row];
    let scaled = |row: int| link_mix * link(row);
    let goal = |row: int| mixed_coeff(shape, row_coeff_alpha, parity_point, link_point, link_mix, slot, row);
    let target = |i: int| goal(i) * mle::eq_weight(point, i);
    sums::lemma_sum_mul_left(link_mix, n, link);
    assert forall|row: int| 0 <= row < n implies #[trigger] scaled(row) == (g(row) * link_mix) * weights[row] by {
        ext::lemma_mul_assoc(link_mix, g(row), weights[row]);
        ext::lemma_mul_comm(link_mix, g(row));
    }
    if slot < 16 {
        let p = |row: int| coefficients::parity_coeff(shape, row_coeff_alpha, parity_point, slot, row);
        let pw = |row: int| p(row) * weights[row];
        let both = |row: int| pw(row) + scaled(row);
        sums::lemma_sum_add(n, pw, scaled);
        assert forall|row: int| 0 <= row < n implies #[trigger] both(row) == target(row) by {
            assert(weights[row] == mle::eq_weight(point, row));
            ext::lemma_mul_distrib_left(g(row) * link_mix, p(row), weights[row]);
            ext::lemma_add_comm(pw(row), scaled(row));
        }
        sums::lemma_sum_ext(n, both, target);
        sums::lemma_sum_ext(
            n,
            pw,
            |row: int|
                coefficients::parity_coeff(shape, row_coeff_alpha, parity_point, slot, row) * weights[row],
        );
    } else {
        assert forall|row: int| 0 <= row < n implies #[trigger] scaled(row) == target(row) by {
            assert(weights[row] == mle::eq_weight(point, row));
        }
        sums::lemma_sum_ext(n, scaled, target);
        let total = sums::sum(n, scaled);
        sums::lemma_sum_canonical(n, scaled);
        ext::lemma_add_comm(EF::zero_spec(), total);
        ext::lemma_add_zero(total);
    }
}

/// The values, at the point of the sumcheck, of the coefficient polynomials of the claim on the
/// steps of cell hashes.
pub fn cell_link_coefficient_evals_from_schedule(
    shape: LeanAirShape,
    poseidon_rows: usize,
    cell_link_point: EF,
    sumcheck_point: &Vec<EF>,
) -> (evals: Vec<EF>)
    requires
        shape.valid(),
        shape.fits_rows(),
        poseidon_rows >= shape.total_rows(),
        poseidon_rows == pow2(sumcheck_point@.len()),
    ensures
        evals@.len() == 16,
        forall|slot: int|
            0 <= slot < 16 ==> #[trigger] evals@[slot] == mle::mle_at(
                |row: int| coefficients::cell_link_coeff(shape, cell_link_point, slot, row),
                sumcheck_point@.reverse(),
            ),
{
    let point = reversed_point(sumcheck_point);
    let weights = mle::eval_eq(&point);
    let mut evals: Vec<EF> = Vec::new();
    let mut slot: usize = 0;
    while slot < 16
        invariant
            slot <= 16,
            evals@.len() == slot,
            forall|s: int| 0 <= s < slot ==> #[trigger] evals@[s] == EF::zero_spec(),
        decreases 16 - slot,
    {
        evals.push(EF::zero());
        slot = slot + 1;
    }
    add_cell_link_coefficient_evals(&mut evals, shape, cell_link_point, &weights);
    proof {
        let n: nat = weights@.len();
        assert forall|slot: int| 0 <= slot < 16 implies #[trigger] evals@[slot] == mle::mle_at(
            |row: int| coefficients::cell_link_coeff(shape, cell_link_point, slot, row),
            sumcheck_point@.reverse(),
        ) by {
            let g = cell_link_coeffs(shape, cell_link_point, slot);
            let v = |row: int| coefficients::cell_link_coeff(shape, cell_link_point, slot, row);
            let a = |row: int| g(row) * weights@[row];
            let b = |i: int| v(i) * mle::eq_weight(point@, i);
            assert forall|row: int| 0 <= row < n implies #[trigger] a(row) == b(row) by {
                assert(weights@[row] == mle::eq_weight(point@, row));
            }
            sums::lemma_sum_ext(n, a, b);
            let total = sums::sum(n, a);
            sums::lemma_sum_canonical(n, a);
            ext::lemma_add_comm(EF::zero_spec(), total);
            ext::lemma_add_zero(total);
        }
    }
    evals
}

} // verus!
