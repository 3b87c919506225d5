//! The sessions with which the prover enters the sumcheck.
use super::air;
use super::air_session;
use super::air_session::DedicatedHashAirSumcheckSession;
use super::claims;
use super::coefficients;
use super::hash_table;
use super::hash_table::LeanAirDedicatedHashTable;
use super::honest;
use super::linear_session;
use super::linear_session::{DenseLinearBusSession, VirtualLinearBusSession};
use super::parity;
use super::protocol;
use super::protocol::{Challenges, SparseStatement};
use super::schedule;
use super::shape;
use super::shape::LeanAirShape;
use super::sparse;
use super::sparse::SparseCoeff;
use super::totals;
use crate::ext;
use crate::ext::EF;
use crate::field::{F, TWO_ADICITY};
use crate::mle;
use crate::poseidon;
use crate::poseidon::{PoseidonConstants, DEDICATED_HASH_NUM_COLS};
use crate::sums;
use vstd::arithmetic::power2::*;
use vstd::prelude::*;

verus! {

/// The three sessions of the sumcheck: the hash constraints, the steps of cell hashes, and the mixed
/// claim on the other links and on the parity of the codewords.
#[derive(Debug)]
pub struct Sessions {
    pub air: DedicatedHashAirSumcheckSession,
    pub cell_link: DenseLinearBusSession,
    pub linear: VirtualLinearBusSession,
}

/// Whether a table can be proved: its rows below the hash rows are equal.
pub open spec fn provable(table: LeanAirDedicatedHashTable) -> bool {
    &&& table.wf()
    &&& table.shape.valid()
    &&& table.shape.fits()
    &&& table.shape.log_m < TWO_ADICITY
    &&& table.schedule.shape == table.shape
    &&& table.schedule.wf()
    &&& forall|c: int, i: int|
        0 <= c < 92 && table.schedule.active_rows <= i < table.schedule.padded_rows
            ==> #[trigger] table.columns@[c]@[i] == table.columns@[c]@[table.schedule.padded_rows - 1]
}

/// Whether a column is the same in all its rows from `start` on.
fn is_padded(column: &Vec<F>, start: usize) -> (r: bool)
    ensures
        r <==> forall|i: int| start <= i < column@.len() ==> #[trigger] column@[i] == column@[column@.len() - 1],
{
    let n: usize = column.len();
    let mut i: usize = start;
    while i < n
        invariant
            n == column@.len(),
            start <= i,
            forall|j: int| start <= j < i && j < n ==> #[trigger] column@[j] == column@[n - 1],
        decreases n - i,
    {
        if column[i] != column[n - 1] {
            return false;
        }
        i = i + 1;
    }
    true
}

/// Whether a table can be proved.
pub fn can_prove(table: &LeanAirDedicatedHashTable) -> (r: bool)
    ensures
        r == provable(*table),
{
    let shape = table.shape;
    if LeanAirShape::checked(shape.log_m, shape.n_rows, shape.cell_len_ext).is_none() || !shape.fits_machine()
        || shape.log_m >= TWO_ADICITY {
        return false;
    }
    proof {
        let _ = shape::lemma_shape(shape);
    }
    if table.schedule.shape != shape || !table.schedule.is_of_shape() || table.columns.len()
        != DEDICATED_HASH_NUM_COLS {
        return false;
    }
    let mut c: usize = 0;
    while c < DEDICATED_HASH_NUM_COLS
        invariant
            c <= 92,
            table.columns@.len() == 92,
            forall|m: int| 0 <= m < c ==> (#[trigger] table.columns@[m])@.len() == table.schedule.padded_rows,
            forall|m: int, i: int|
                0 <= m < c && table.schedule.active_rows <= i < table.schedule.padded_rows
                    ==> #[trigger] table.columns@[m]@[i] == table.columns@[m]@[table.schedule.padded_rows - 1],
        decreases 92 - c,
    {
        let column = &table.columns[c];
        if column.len() != table.schedule.padded_rows {
            return false;
        }
        if !is_padded(column, table.schedule.active_rows) {
            proof {
                let i = choose|i: int|
                    table.schedule.active_rows <= i < column@.len() && #[trigger] column@[i] != column@[column@.len()
                        - 1];
                assert(table.columns@[c as int]@[i] != table.columns@[c as int]@[table.schedule.padded_rows - 1]);
            }
            return false;
        }
        c = c + 1;
    }
    true
}

/// Every table that was built from rows can be proved.
pub proof fn law_built_table_is_provable(
    k: PoseidonConstants,
    shape: LeanAirShape,
    data: Seq<Seq<F>>,
    table: LeanAirDedicatedHashTable,
)
    requires
        shape.valid(),
        shape.fits(),
        shape.log_m < TWO_ADICITY,
        table.holds(k, shape, data),
    ensures
        provable(table),
{
    let rows: int = shape.table_rows() as int;
    schedule::lemma_row_products_valid(shape);
    assert forall|c: int, i: int|
        0 <= c < 92 && table.schedule.active_rows <= i < table.schedule.padded_rows implies #[trigger] table.columns@[c]@[i]
        == table.columns@[c]@[table.schedule.padded_rows - 1] by {
        assert(table.columns@[c]@[i] == hash_table::table_value(k, shape, data, c, i));
        assert(table.columns@[c]@[rows - 1] == hash_table::table_value(k, shape, data, c, rows - 1));
    }
}

/// The sessions as they are opened on a table.
pub open spec fn opened(table: LeanAirDedicatedHashTable, ch: Challenges, s: Sessions, k: PoseidonConstants) -> bool {
    let n = ch.eq_point@.len();
    let shape = table.shape;
    &&& s.air.wf(k)
    &&& s.air.initial_n_vars == n
    &&& s.air.rounds_done == 0
    &&& s.air.eq_factor@ == ch.eq_point@
    &&& s.air.alphas@.len() == 77
    &&& forall|i: int| 0 <= i < 77 ==> #[trigger] s.air.alphas@[i] == ch.air_alpha.pow(i as nat)
    &&& s.air.sum == EF::zero_spec()
    &&& s.air.missing_mul_factor == EF::one_spec()
    &&& forall|i: int| 0 <= i < pow2(n) ==> #[trigger] s.air.row(i) == totals::lifted_row(table.columns@, i)
    &&& s.cell_link.wf()
    &&& s.cell_link.current_n_vars == n
    &&& s.cell_link.initial_n_vars == n
    &&& s.cell_link.values@.len() == 16
    &&& forall|slot: int, row: int|
        0 <= slot < 16 && 0 <= row < pow2(n) ==> #[trigger] s.cell_link.values@[slot]@[row] == EF::from_base_spec(
            table.columns@[claims::cell_link_column_of(slot)]@[row],
        )
    &&& forall|slot: int, row: int|
        0 <= slot < 16 && 0 <= row < pow2(n) ==> #[trigger] s.cell_link.coefficients@[slot]@[row]
            == coefficients::cell_link_coeff(shape, ch.cell_link_point, slot, row)
    &&& s.cell_link.sum == EF::zero_spec()
    &&& s.cell_link.missing_mul_factor == EF::one_spec()
    &&& s.linear.wf()
    &&& s.linear.current_n_vars == n
    &&& s.linear.initial_n_vars == n
    &&& s.linear.values@.len() == 24
    &&& forall|slot: int, row: int|
        0 <= slot < 24 && 0 <= row < pow2(n) ==> #[trigger] s.linear.values@[slot]@[row] == EF::from_base_spec(
            table.columns@[claims::link_column(slot)]@[row],
        )
    &&& forall|slot: int, row: int|
        0 <= slot < 24 && 0 <= row < pow2(n) ==> #[trigger] sparse::value_at(s.linear.coefficients@[slot]@, row)
            == claims::mixed_coeff(
            shape,
            ch.row_coeff_alpha,
            ch.parity_point,
            ch.link_point,
            ch.link_mix,
            slot,
            row,
        )
    &&& s.linear.sum == EF::zero_spec()
    &&& s.linear.missing_mul_factor == EF::one_spec()
}

/// How the hash session stores its rows at first: its packing, and as many rows as fill whole blocks
/// of those whose digits are in reverse.
pub open spec fn packed(table: LeanAirDedicatedHashTable, s: Sessions, packing_log_width: int) -> bool {
    &&& s.air.packing_log_width == packing_log_width
    &&& s.air.current_unpadded_len == air_session::next_multiple(
        table.schedule.active_rows as int,
        pow2(air_session::pivot_of(s.air.initial_n_vars as int) as nat) as int,
    )
}

/// Whether sparse columns hold the coefficients of the mixed claim.
pub open spec fn mixed_columns(
    shape: LeanAirShape,
    poseidon_rows: int,
    ch: Challenges,
    columns: Seq<Vec<SparseCoeff>>,
) -> bool {
    &&& columns.len() == 24
    &&& forall|slot: int| 0 <= slot < 24 ==> sparse::strictly_sorted((#[trigger] columns[slot])@)
    &&& forall|slot: int| 0 <= slot < 24 ==> sparse::rows_below((#[trigger] columns[slot])@, poseidon_rows)
    &&& forall|slot: int, row: int|
        0 <= slot < 24 && 0 <= row < poseidon_rows ==> #[trigger] sparse::value_at(columns[slot]@, row)
            == claims::mixed_coeff(
            shape,
            ch.row_coeff_alpha,
            ch.parity_point,
            ch.link_point,
            ch.link_mix,
            slot,
            row,
        )
}

/// Whether columns hold the coefficients of the claim on the steps of cell hashes.
pub open spec fn cell_link_columns(
    shape: LeanAirShape,
    poseidon_rows: int,
    cell_link_point: EF,
    columns: Seq<Vec<EF>>,
) -> bool {
    &&& columns.len() == 16
    &&& forall|slot: int| 0 <= slot < 16 ==> (#[trigger] columns[slot])@.len() == poseidon_rows
    &&& forall|slot: int, row: int|
        0 <= slot < 16 && 0 <= row < poseidon_rows ==> #[trigger] columns[slot]@[row]
            == coefficients::cell_link_coeff(shape, cell_link_point, slot, row)
}

/// The sparse coefficients of the mixed claim, none where the parity point is not outside the domain.
pub fn mixed_coefficients(shape: LeanAirShape, poseidon_rows: usize, ch: &Challenges) -> (r: Option<
    Vec<Vec<SparseCoeff>>,
>)
    requires
        shape.valid(),
        shape.fits_rows(),
        shape.log_m < TWO_ADICITY,
        poseidon_rows >= shape.total_rows(),
    ensures
        r is Some <==> parity::outside_domain(shape.log_m as nat, ch.parity_point),
        r matches Some(columns) ==> mixed_columns(shape, poseidon_rows as int, *ch, columns@),
{
    let parity_columns = match coefficients::parity_sparse_coefficients(
        shape,
        poseidon_rows,
        ch.row_coeff_alpha,
        ch.parity_point,
    ) {
        Some(columns) => columns,
        None => {
            return None;
        },
    };
    let link_columns = coefficients::link_sparse_coefficients(shape, poseidon_rows, ch.link_point);
    let ghost link = link_columns@;
    let columns = claims::mixed_sparse_linear_coefficients(&parity_columns, link_columns, ch.link_mix);
    proof {
        assert forall|slot: int| 0 <= slot < 24 implies sparse::rows_below(
            (#[trigger] columns@[slot])@,
            poseidon_rows as int,
        ) by {
            let column = columns@[slot]@;
            assert forall|i: int| 0 <= i < column.len() implies (#[trigger] column[i]).row < poseidon_rows by {
                let row = column[i].row as int;
                assert(sparse::listed(column, row));
                if sparse::listed(link[slot]@, row) {
                    let m = choose|m: int| 0 <= m < link[slot]@.len() && #[trigger] link[slot]@[m].row == row;
                    assert(sparse::rows_below(link[slot]@, poseidon_rows as int));
                } else {
                    let other = parity_columns@[slot]@;
                    assert(sparse::listed(other, row));
                    let m = choose|m: int| 0 <= m < other.len() && #[trigger] other[m].row == row;
                    assert(sparse::rows_below(other, poseidon_rows as int));
                }
            }
        }
        assert forall|slot: int, row: int|
            0 <= slot < 24 && 0 <= row < poseidon_rows implies #[trigger] sparse::value_at(columns@[slot]@, row)
            == claims::mixed_coeff(
            shape,
            ch.row_coeff_alpha,
            ch.parity_point,
            ch.link_point,
            ch.link_mix,
            slot,
            row,
        ) by {
            assert(sparse::value_at(link[slot]@, row) == coefficients::link_coeff(shape, ch.link_point, slot, row));
            if slot < 16 {
                assert(sparse::value_at(parity_columns@[slot]@, row) == coefficients::parity_coeff(
                    shape,
                    ch.row_coeff_alpha,
                    ch.parity_point,
                    slot,
                    row,
                ));
            }
        }
    }
    Some(columns)
}

/// Opens the sessions of a table, none where the parity point is not outside the domain.
pub fn open_sessions(
    k: &PoseidonConstants,
    table: &LeanAirDedicatedHashTable,
    ch: &Challenges,
    packing_log_width: usize,
) -> (r: Option<Sessions>)
    requires
        provable(*table),
        table.schedule.padded_rows == pow2(ch.eq_point@.len()),
        packing_log_width < air_session::pivot_of(ch.eq_point@.len() as int),
    ensures
        r is Some <==> parity::outside_domain(table.shape.log_m as nat, ch.parity_point),
        r matches Some(s) ==> opened(*table, *ch, s, *k) && packed(*table, s, packing_log_width as int),
{
    let shape = table.shape;
    let rows: usize = table.schedule.padded_rows;
    proof {
        schedule::lemma_row_products_valid(shape);
    }
    let linear_coefficients = match mixed_coefficients(shape, rows, ch) {
        Some(columns) => columns,
        None => {
            return None;
        },
    };
    let cell_link_coefficients = coefficients::cell_link_dense_coefficients(shape, rows, ch.cell_link_point);
    Some(open_sessions_with(k, table, ch, packing_log_width, cell_link_coefficients, linear_coefficients))
}

/// Opens the sessions of a table with the coefficients of their claims.
pub fn open_sessions_with(
    k: &PoseidonConstants,
    table: &LeanAirDedicatedHashTable,
    ch: &Challenges,
    packing_log_width: usize,
    cell_link_coefficients: Vec<Vec<EF>>,
    linear_coefficients: Vec<Vec<SparseCoeff>>,
) -> (s: Sessions)
    requires
        provable(*table),
        table.schedule.padded_rows == pow2(ch.eq_point@.len()),
        packing_log_width < air_session::pivot_of(ch.eq_point@.len() as int),
        cell_link_columns(
            table.shape,
            table.schedule.padded_rows as int,
            ch.cell_link_point,
            cell_link_coefficients@,
        ),
        mixed_columns(table.shape, table.schedule.padded_rows as int, *ch, linear_coefficients@),
    ensures
        opened(*table, *ch, s, *k),
        packed(*table, s, packing_log_width as int),
{
    let rows: usize = table.schedule.padded_rows;
    let log_rows: usize = ch.eq_point.len();
    proof {
        schedule::lemma_row_products_valid(table.shape);
    }
    let cell_link_columns = claims::cell_link_column_indexes();
    let link_columns = claims::link_column_indexes();
    let alphas = protocol::extra_data_for_air(ch.air_alpha);
    let eq_point = mle::copied(&ch.eq_point);
    let air = DedicatedHashAirSumcheckSession::new(
        k,
        &table.columns,
        eq_point,
        alphas,
        table.schedule.active_rows,
        packing_log_width,
    );
    proof {
        assert forall|s: int| 0 <= s < 16 implies (#[trigger] cell_link_columns@[s]) < 92 by {
            assert(cell_link_columns@[s] == claims::cell_link_column_of(s));
        }
        assert forall|s: int| 0 <= s < 24 implies (#[trigger] link_columns@[s]) < 92 by {
            assert(link_columns@[s] == claims::link_column(s));
        }
    }
    let ghost cell_indexes = cell_link_columns@;
    let ghost link_indexes = link_columns@;
    let cell_link = DenseLinearBusSession::new(&table.columns, cell_link_columns, cell_link_coefficients, log_rows);
    let linear = VirtualLinearBusSession::new(&table.columns, link_columns, linear_coefficients, log_rows);
    let s = Sessions { air, cell_link, linear };
    proof {
        assert forall|slot: int, row: int|
            0 <= slot < 16 && 0 <= row < rows implies #[trigger] s.cell_link.values@[slot]@[row]
            == EF::from_base_spec(table.columns@[claims::cell_link_column_of(slot)]@[row]) by {
            assert(cell_indexes[slot] == claims::cell_link_column_of(slot));
            assert(s.cell_link.values@[slot]@.len() == rows);
        }
        assert forall|slot: int, row: int|
            0 <= slot < 24 && 0 <= row < rows implies #[trigger] s.linear.values@[slot]@[row]
            == EF::from_base_spec(table.columns@[claims::link_column(slot)]@[row]) by {
            assert(link_indexes[slot] == claims::link_column(slot));
            assert(s.linear.values@[slot]@.len() == rows);
        }
    }
    s
}

/// The sessions of a table that was built from codewords start with a true claim: the sum that they
/// claim, zero, is the sum that they are about.
pub proof fn law_honest_sessions_start_true(
    k: PoseidonConstants,
    shape: LeanAirShape,
    data: Seq<Seq<F>>,
    messages: Seq<Seq<EF>>,
    table: LeanAirDedicatedHashTable,
    ch: Challenges,
    s: Sessions,
)
    requires
        shape.valid(),
        shape.log_m < TWO_ADICITY,
        honest::rows_of_codewords(shape, data, messages),
        table.holds(k, shape, data),
        shape.table_rows() == pow2(ch.eq_point@.len()),
        opened(table, ch, s, k),
    ensures
        s.air.sum == s.air.claim(k),
        s.cell_link.sum == s.cell_link.claim(),
        s.linear.sum == s.linear.claim(),
{
    honest::lemma_codeword_rows_full(shape, data, messages);
    lemma_air_starts_true(k, shape, data, table, ch, s);
    lemma_cell_link_starts_true(k, shape, data, table, ch, s);
    lemma_linear_claim(k, shape, data, table, ch, s);
    honest::law_parity_holds(k, shape, data, messages, ch.row_coeff_alpha, ch.parity_point);
    ext::lemma_mul_zero(linear_session::claim_weight(ch.eq_point@.len(), EF::one_spec()));
}

pub proof fn lemma_air_starts_true(
    k: PoseidonConstants,
    shape: LeanAirShape,
    data: Seq<Seq<F>>,
    table: LeanAirDedicatedHashTable,
    ch: Challenges,
    s: Sessions,
)
    requires
        shape.valid(),
        super::links::full_rows(shape, data),
        table.holds(k, shape, data),
        shape.table_rows() == pow2(ch.eq_point@.len()),
        opened(table, ch, s, k),
    ensures
        s.air.claim(k) == EF::zero_spec(),
{
    let n: nat = pow2(ch.eq_point@.len());
    totals::law_honest_air_sum(k, shape, data, table, ch.eq_point@, s.air.alphas@);
    let a = |i: int|
        air::combined_constraints(k, s.air.alphas@, s.air.row(i)) * mle::eq_weight(s.air.eq_factor@, i);
    let b = |row: int|
        mle::eq_weight(ch.eq_point@, row) * air::combined_constraints(
            k,
            s.air.alphas@,
            totals::lifted_row(table.columns@, row),
        );
    assert forall|i: int| 0 <= i < n implies #[trigger] a(i) == b(i) by {
        assert(s.air.row(i) == totals::lifted_row(table.columns@, i));
        ext::lemma_mul_comm(
            air::combined_constraints(k, s.air.alphas@, s.air.row(i)),
            mle::eq_weight(ch.eq_point@, i),
        );
    }
    sums::lemma_sum_ext(n, a, b);
    ext::lemma_mul_zero(EF::one_spec());
}

pub proof fn lemma_cell_link_starts_true(
    k: PoseidonConstants,
    shape: LeanAirShape,
    data: Seq<Seq<F>>,
    table: LeanAirDedicatedHashTable,
    ch: Challenges,
    s: Sessions,
)
    requires
        shape.valid(),
        super::links::full_rows(shape, data),
        table.holds(k, shape, data),
        shape.table_rows() == pow2(ch.eq_point@.len()),
        opened(table, ch, s, k),
    ensures
        s.cell_link.claim() == EF::zero_spec(),
{
    let n: nat = pow2(ch.eq_point@.len());
    honest::law_cell_links_hold(k, shape, data, ch.cell_link_point);
    let v = linear_session::column_values(s.cell_link.values@);
    let c = linear_session::column_values(s.cell_link.coefficients@);
    let a = |slot: int| sums::sum(n, |i: int| v(slot, i) * c(slot, i));
    let b = |slot: int| honest::cell_link_claim(k, shape, data, ch.cell_link_point, slot);
    assert forall|slot: int| 0 <= slot < 16 implies #[trigger] a(slot) == b(slot) by {
        let x = |i: int| v(slot, i) * c(slot, i);
        let y = |row: int|
            coefficients::cell_link_coeff(shape, ch.cell_link_point, slot, row).scale_spec(
                hash_table::table_value(k, shape, data, claims::cell_link_column_of(slot), row),
            );
        assert forall|i: int| 0 <= i < n implies #[trigger] x(i) == y(i) by {
            let column: int = claims::cell_link_column_of(slot);
            let value = table.columns@[column]@[i];
            assert(s.cell_link.values@[slot]@[i] == EF::from_base_spec(value));
            assert(s.cell_link.coefficients@[slot]@[i] == coefficients::cell_link_coeff(
                shape,
                ch.cell_link_point,
                slot,
                i,
            ));
            assert(value == hash_table::table_value(k, shape, data, column, i));
            ext::lemma_mul_comm(v(slot, i), c(slot, i));
            ext::lemma_scale_is_mul(c(slot, i), value);
        }
        sums::lemma_sum_ext(n, x, y);
    }
    sums::lemma_sum_ext(16, a, b);
    ext::lemma_mul_zero(linear_session::claim_weight(ch.eq_point@.len(), EF::one_spec()));
}

/// The claim of the linear session of a table that was built from any rows is the parity claim, with
/// the weight of the session.
pub proof fn lemma_linear_claim(
    k: PoseidonConstants,
    shape: LeanAirShape,
    data: Seq<Seq<F>>,
    table: LeanAirDedicatedHashTable,
    ch: Challenges,
    s: Sessions,
)
    requires
        shape.valid(),
        super::links::full_rows(shape, data),
        table.holds(k, shape, data),
        shape.table_rows() == pow2(ch.eq_point@.len()),
        opened(table, ch, s, k),
    ensures
        s.linear.claim() == linear_session::claim_weight(ch.eq_point@.len(), EF::one_spec()) * sums::sum(
            16,
            |slot: int|
                honest::parity_claim(k, shape, data, ch.row_coeff_alpha, ch.parity_point, slot),
        ),
{
    let n: nat = pow2(ch.eq_point@.len());
    honest::law_mixed_claim_is_parity(
        k,
        shape,
        data,
        ch.row_coeff_alpha,
        ch.parity_point,
        ch.link_point,
        ch.link_mix,
    );
    let v = linear_session::column_values(s.linear.values@);
    let c = linear_session::sparse_values(s.linear.coefficients@);
    let a = |slot: int| sums::sum(n, |i: int| v(slot, i) * c(slot, i));
    let b = |slot: int|
        honest::mixed_claim(
            k,
            shape,
            data,
            ch.row_coeff_alpha,
            ch.parity_point,
            ch.link_point,
            ch.link_mix,
            slot,
        );
    assert forall|slot: int| 0 <= slot < 24 implies #[trigger] a(slot) == b(slot) by {
        let x = |i: int| v(slot, i) * c(slot, i);
        let y = |row: int|
            claims::mixed_coeff(
                shape,
                ch.row_coeff_alpha,
                ch.parity_point,
                ch.link_point,
                ch.link_mix,
                slot,
                row,
            ).scale_spec(hash_table::table_value(k, shape, data, claims::link_column(slot), row));
        assert forall|i: int| 0 <= i < n implies #[trigger] x(i) == y(i) by {
            let column: int = claims::link_column(slot);
            let value = table.columns@[column]@[i];
            assert(s.linear.values@[slot]@[i] == EF::from_base_spec(value));
            assert(sparse::value_at(s.linear.coefficients@[slot]@, i) == claims::mixed_coeff(
                shape,
                ch.row_coeff_alpha,
                ch.parity_point,
                ch.link_point,
                ch.link_mix,
                slot,
                i,
            ));
            assert(value == hash_table::table_value(k, shape, data, column, i));
            ext::lemma_mul_comm(v(slot, i), c(slot, i));
            ext::lemma_scale_is_mul(c(slot, i), value);
        }
        sums::lemma_sum_ext(n, x, y);
    }
    sums::lemma_sum_ext(24, a, b);
}

/// The polynomial that the prover commits to, in the extension.
pub open spec fn committed(table: LeanAirDedicatedHashTable) -> spec_fn(int) -> EF {
    |i: int|
        EF::from_base_spec(
            protocol::global_value(table.columns@, table.schedule.padded_rows as int, i),
        )
}

/// The statements that open the commitment hold of the polynomial of a table that was built from any
/// rows, where the claimed values of the columns are those at the point.
pub proof fn law_honest_statements_hold(
    k: PoseidonConstants,
    shape: LeanAirShape,
    data: Seq<Seq<F>>,
    table: LeanAirDedicatedHashTable,
    global_n_vars: int,
    natural_point: Seq<EF>,
    col_evals: Seq<EF>,
    statements: Seq<SparseStatement>,
)
    requires
        shape.valid(),
        shape.fits(),
        super::links::full_rows(shape, data),
        table.holds(k, shape, data),
        shape.table_rows() == pow2(natural_point.len()),
        col_evals.len() == 92,
        forall|c: int|
            0 <= c < 92 ==> #[trigger] col_evals[c] == mle::mle_at(
                |i: int| EF::from_base_spec(table.columns@[c]@[i]),
                natural_point,
            ),
        protocol::statements_spec(
            shape,
            shape.table_rows() as int,
            global_n_vars,
            natural_point,
            col_evals,
            table.commitments.commitment_root@,
            statements,
        ),
    ensures
        forall|i: int| 0 <= i < 9 ==> (#[trigger] statements[i]).holds(committed(table)),
{
    let rows: int = shape.table_rows() as int;
    let g = committed(table);
    schedule::lemma_row_products_valid(shape);
    assert forall|i: int| 0 <= i < 9 implies (#[trigger] statements[i]).holds(g) by {
        if i == 0 {
            let st = statements[0];
            assert forall|c: int| 0 <= c < st.values@.len() implies mle::mle_at(
                |j: int| g((#[trigger] st.values@[c]).selector * pow2(st.point@.len()) + j),
                st.point@,
            ) == st.values@[c].value by {
                lemma_column_statement(table, natural_point, c);
                assert(st.values@[c].selector == c);
                assert(col_evals[c] == st.values@[c].value);
                sums::lemma_sum_ext(
                    pow2(natural_point.len()),
                    |j: int|
                        (|j: int| g(st.values@[c].selector * pow2(st.point@.len()) + j))(j) * mle::eq_weight(
                            natural_point,
                            j,
                        ),
                    |j: int|
                        (|j: int| g(c * pow2(natural_point.len()) + j))(j) * mle::eq_weight(natural_point, j),
                );
            }
        } else {
            let limb: int = i - 1;
            let st = statements[1 + limb];
            lemma_root_statement(k, shape, data, table, limb);
            lemma_single_statement(st, table);
        }
    }
}

/// A statement on one index says what the committed polynomial is there.
proof fn lemma_single_statement(st: SparseStatement, table: LeanAirDedicatedHashTable)
    requires
        st.point@.len() == 0,
        st.values@.len() == 1,
        committed(table)(st.values@[0].selector as int).canonical(),
    ensures
        st.holds(committed(table)) <==> committed(table)(st.values@[0].selector as int) == st.values@[0].value,
{
    let g = committed(table);
    let index: int = st.values@[0].selector as int;
    lemma2_to64();
    let f = |j: int| g(st.values@[0].selector * pow2(st.point@.len()) + j);
    assert(st.values@[0].selector * pow2(st.point@.len()) == index) by (nonlinear_arith)
        requires
            st.values@[0].selector == index,
            pow2(st.point@.len()) == 1,
    ;
    let h = |j: int| f(j) * mle::eq_weight(st.point@, j);
    assert(sums::sum(1, h) == sums::sum(0, h) + h(0));
    let value = g(index);
    assert(f(0) == value);
    ext::lemma_mul_one(value);
    ext::lemma_add_zero(value);
    ext::lemma_add_comm(EF::zero_spec(), value);
    assert(mle::mle_at(f, st.point@) == value);
    if st.holds(g) {
        assert(st.values@[0].value == mle::mle_at(
            |j: int| g((st.values@[0]).selector * pow2(st.point@.len()) + j),
            st.point@,
        ));
    }
    if value == st.values@[0].value {
        assert forall|c: int| 0 <= c < st.values@.len() implies mle::mle_at(
            |j: int| g((#[trigger] st.values@[c]).selector * pow2(st.point@.len()) + j),
            st.point@,
        ) == st.values@[c].value by {
            assert(c == 0);
        }
    }
}

/// A root that is not the commitment is refused: of the statements that name it, one does not hold
/// of the polynomial that was committed to.
pub proof fn law_wrong_root_is_refused(
    k: PoseidonConstants,
    shape: LeanAirShape,
    data: Seq<Seq<F>>,
    table: LeanAirDedicatedHashTable,
    global_n_vars: int,
    natural_point: Seq<EF>,
    col_evals: Seq<EF>,
    root: Seq<F>,
    statements: Seq<SparseStatement>,
)
    requires
        shape.valid(),
        shape.fits(),
        super::links::full_rows(shape, data),
        table.holds(k, shape, data),
        root.len() == 8,
        root != table.commitments.commitment_root@,
        protocol::statements_spec(
            shape,
            shape.table_rows() as int,
            global_n_vars,
            natural_point,
            col_evals,
            root,
            statements,
        ),
    ensures
        exists|i: int| 0 <= i < 9 && !(#[trigger] statements[i]).holds(committed(table)),
{
    let good = table.commitments.commitment_root@;
    if forall|limb: int| 0 <= limb < 8 ==> root[limb] == good[limb] {
        assert(root =~= good);
    }
    let limb = choose|limb: int| 0 <= limb < 8 && root[limb] != good[limb];
    let st = statements[1 + limb];
    lemma_root_statement(k, shape, data, table, limb);
    lemma_single_statement(st, table);
    assert(EF::from_base_spec(root[limb]).c0 != EF::from_base_spec(good[limb]).c0);
    assert(!statements[1 + limb].holds(committed(table)));
}

/// The part of the committed polynomial that the selector of a column picks.
proof fn lemma_column_statement(table: LeanAirDedicatedHashTable, point: Seq<EF>, c: int)
    requires
        table.wf(),
        0 <= c < 92,
        table.schedule.padded_rows == pow2(point.len()),
    ensures
        mle::mle_at(|j: int| committed(table)(c * pow2(point.len()) + j), point) == mle::mle_at(
            |i: int| EF::from_base_spec(table.columns@[c]@[i]),
            point,
        ),
{
    let n: nat = pow2(point.len());
    let f = |j: int| committed(table)(c * pow2(point.len()) + j);
    let h = |i: int| EF::from_base_spec(table.columns@[c]@[i]);
    let a = |i: int| f(i) * mle::eq_weight(point, i);
    let b = |i: int| h(i) * mle::eq_weight(point, i);
    assert forall|i: int| 0 <= i < n implies #[trigger] a(i) == b(i) by {
        super::commit::lemma_decode(c, i, n as int);
        schedule::lemma_block_bound(c, 92, i, n as int);
    }
    sums::lemma_sum_ext(n, a, b);
}

/// The committed polynomial takes the commitment at the outputs of the last hash row.
proof fn lemma_root_statement(
    k: PoseidonConstants,
    shape: LeanAirShape,
    data: Seq<Seq<F>>,
    table: LeanAirDedicatedHashTable,
    limb: int,
)
    requires
        shape.valid(),
        shape.fits(),
        super::links::full_rows(shape, data),
        table.holds(k, shape, data),
        0 <= limb < 8,
    ensures
        committed(table)((84 + limb) * shape.table_rows() + shape.final_row()) == EF::from_base_spec(
            table.commitments.commitment_root@[limb],
        ),
        EF::from_base_spec(table.commitments.commitment_root@[limb]).canonical(),
{
    let rows: int = shape.table_rows() as int;
    schedule::lemma_row_products_valid(shape);
    let _ = shape::lemma_shape(shape);
    let c: int = 84 + limb;
    super::links::lemma_starts(shape);
    super::commit::lemma_decode(c, shape.final_row(), rows);
    schedule::lemma_block_bound(c, 92, shape.final_row(), rows);
    honest::lemma_row_input_len(k, shape, data, shape.final_row());
    super::commit::lemma_input_final(k, shape, data);
    let input = super::commit::row_input(k, shape, data, shape.final_row());
    honest::lemma_trace_columns(k, input);
    assert(table.columns@[c]@[shape.final_row()] == hash_table::table_value(k, shape, data, c, shape.final_row()));
    assert(poseidon::trace_spec(k, input)[84 + limb] == poseidon::compress_spec(k, input)[limb]);
    let t = poseidon::two_full_rounds(k, k.ending@[2]@, k.ending@[3]@, poseidon::ending_state(k, input));
    crate::field::lemma_of_val(t[limb].val() + input[limb].val());
    ext::lemma_from_base_canonical(poseidon::compress_spec(k, input)[limb]);
}

} // verus!
