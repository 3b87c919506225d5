//! What columns that satisfy all claims hold.
use super::air;
use super::coefficients;
use super::commit;
use super::hash_table;
use super::honest;
use super::links;
use super::schedule;
use super::shape;
use super::shape::LeanAirShape;
use super::wiring;
use crate::arith;
use crate::ext::EF;
use crate::ext;
use crate::field::F;
use crate::hashing;
use crate::poseidon;
use crate::poseidon::PoseidonConstants;
use crate::sums;
use vstd::arithmetic::div_mod::*;
use vstd::prelude::*;

verus! {

/// A row of columns by their values.
pub open spec fn row_of(v: spec_fn(int, int) -> F, x: int) -> Seq<F> {
    Seq::new(92, |c: int| v(c, x))
}

/// The step of a cell's hash that reads element `b` of the cell.
pub open spec fn step_of(b: int) -> int {
    if b < 16 {
        0
    } else {
        1 + (b - 16) / 8
    }
}

/// The input column that element `b` of a cell is read from.
pub open spec fn column_of(b: int) -> int {
    if b < 16 {
        b
    } else {
        8 + (b - 16) % 8
    }
}

/// The rows of data that columns hold: the elements that the steps of cell hashes read.
pub open spec fn held_data(shape: LeanAirShape, v: spec_fn(int, int) -> F) -> Seq<Seq<F>> {
    Seq::new(
        shape.n_rows as nat,
        |row: int|
            Seq::new(
                5 * shape.codeword_len(),
                |p: int|
                    {
                        let b: int = p % (shape.cell_base() as int);
                        v(
                            column_of(b),
                            schedule::cell_row(shape, row, p / (shape.cell_base() as int), step_of(b)),
                        )
                    },
            ),
    )
}

/// Whether every hash row of columns satisfies all constraints.
pub open spec fn satisfied(k: PoseidonConstants, shape: LeanAirShape, v: spec_fn(int, int) -> F) -> bool {
    forall|x: int, i: int|
        0 <= x < shape.total_rows() && 0 <= i < 76 ==> #[trigger] air::constraints_spec(k, row_of(v, x))[i]
            == F::zero_spec()
}

/// An element of a cell of the data.
proof fn lemma_held(shape: LeanAirShape, v: spec_fn(int, int) -> F, row: int, cell: int, b: int)
    requires
        shape.valid(),
        0 <= row < shape.n_rows,
        0 <= cell < shape.cells(),
        0 <= b < shape.cell_base(),
    ensures
        commit::cell_of(shape, held_data(shape, v), row, cell).len() == shape.cell_base(),
        commit::cell_of(shape, held_data(shape, v), row, cell)[b] == v(
            column_of(b),
            schedule::cell_row(shape, row, cell, step_of(b)),
        ),
{
    let data = held_data(shape, v);
    let base: int = shape.cell_base() as int;
    let _ = shape::lemma_shape(shape);
    assert(cell * base + base <= 5 * shape.codeword_len()) by (nonlinear_arith)
        requires
            cell + 1 <= shape.cells(),
            base == 5 * shape.cell_len_ext,
            shape.cells() * shape.cell_len_ext == shape.codeword_len(),
    ;
    assert(0 <= cell * base) by (nonlinear_arith)
        requires
            cell >= 0,
            base >= 0,
    ;
    let p: int = cell * base + b;
    commit::lemma_decode(cell, b, base);
    assert(commit::cell_of(shape, data, row, cell)[b] == data[row][p]);
}

/// The data is whole, and canonical where the columns are.
pub proof fn lemma_held_rows(shape: LeanAirShape, v: spec_fn(int, int) -> F)
    requires
        shape.valid(),
        wiring::canonical_values(shape, v),
    ensures
        links::full_rows(shape, held_data(shape, v)),
        honest::canonical_rows(held_data(shape, v)),
{
    let data = held_data(shape, v);
    let base: int = shape.cell_base() as int;
    let _ = shape::lemma_shape(shape);
    links::lemma_starts(shape);
    arith::lemma_next_pow2((shape.total_rows() + 1) as nat);
    assert forall|row: int, p: int| 0 <= row < data.len() && 0 <= p < data[row].len() implies (
    #[trigger] data[row][p]).canonical() by {
        let b: int = p % base;
        let cell: int = p / base;
        assert(shape.cells() * base == 5 * shape.codeword_len()) by (nonlinear_arith)
            requires
                base == 5 * shape.cell_len_ext,
                shape.cells() * shape.cell_len_ext == shape.codeword_len(),
        ;
        links::lemma_encode(p, shape.cells() as int, base);
        lemma_step_bound(shape, b);
        schedule::lemma_cell_row_bound(shape, row, cell, step_of(b));
        assert(v(column_of(b), schedule::cell_row(shape, row, cell, step_of(b))).canonical());
    }
}

proof fn lemma_step_bound(shape: LeanAirShape, b: int)
    requires
        shape.valid(),
        0 <= b < shape.cell_base(),
    ensures
        0 <= step_of(b) < shape.chunks(),
        0 <= column_of(b) < 16,
{
    let _ = shape::lemma_shape(shape);
    assert(shape.cell_base() == 16 + 8 * (shape.chunks() - 1));
}

/// The inputs of a hash row, where those above it are the hash rows of the data.
proof fn lemma_inputs(k: PoseidonConstants, shape: LeanAirShape, v: spec_fn(int, int) -> F, x: int)
    requires
        shape.valid(),
        wiring::wired(shape, v),
        0 <= x < shape.total_rows(),
        forall|y: int, l: int|
            0 <= y < x && 0 <= l < 8 ==> #[trigger] v(84 + l, y) == poseidon::compress_spec(
                k,
                commit::row_input(k, shape, held_data(shape, v), y),
            )[l],
    ensures
        commit::row_input(k, shape, held_data(shape, v), x).len() == 16,
        forall|c: int| 0 <= c < 16 ==> #[trigger] v(c, x) == commit::row_input(k, shape, held_data(shape, v), x)[c],
{
    let data = held_data(shape, v);
    let input = commit::row_input(k, shape, data, x);
    let _ = shape::lemma_shape(shape);
    links::lemma_starts(shape);
    assert(links::full_rows(shape, data));
    honest::lemma_row_input_len(k, shape, data, x);
    if x < shape.systematic_start() {
        let chunks: int = shape.chunks() as int;
        let cells: int = shape.cells() as int;
        links::lemma_encode(x, shape.n_rows * cells, chunks);
        let q: int = x / chunks;
        let j: int = x % chunks;
        links::lemma_encode(q, shape.n_rows as int, cells);
        let (row, cell) = (q / cells, q % cells);
        let here = commit::cell_of(shape, data, row, cell);
        assert(schedule::cell_row(shape, row, cell, j) == x);
        assert forall|c: int| 0 <= c < 16 implies #[trigger] v(c, x) == input[c] by {
            if j == 0 {
                lemma_held(shape, v, row, cell, c);
                assert(input[c] == here[c]);
            } else if c >= 8 {
                let b: int = 8 + 8 * j + (c - 8);
                lemma_held(shape, v, row, cell, b);
                assert(step_of(b) == j && column_of(b) == c);
                hashing::lemma_compress_len(k, hashing::cell_input(k, here, (j - 1) as nat));
                assert(input[c] == here[b]);
            } else {
                lemma_fundamental_div_mod_converse(x - 1, chunks, q, j - 1);
                assert(wiring::stepped(v, x - 1, c));
                let above = hashing::cell_input(k, here, (j - 1) as nat);
                assert(commit::row_input(k, shape, data, x - 1) == above);
                assert(v(84 + c, x - 1) == poseidon::compress_spec(k, above)[c]);
                hashing::lemma_compress_len(k, above);
                assert((j as nat - 1) as nat == (j - 1) as nat);
            }
        }
    } else {
        assert forall|c: int| 0 <= c < 16 implies #[trigger] v(c, x) == input[c] by {
            let side: int = c / 8;
            let l: int = c % 8;
            assert(wiring::linked(shape, v, x, c));
            links::law_inputs_follow_from_outputs(k, shape, data, x, side);
            assert(links::half(input, side)[l] == input[c]);
            match links::link_source(shape, x, side) {
                Some(y) => {
                    assert(v(84 + l, y) == poseidon::compress_spec(k, commit::row_input(k, shape, data, y))[l]);
                },
                None => {},
            }
        }
    }
}

/// The first `n` hash rows of such columns are those of the data.
proof fn lemma_rows_above(k: PoseidonConstants, shape: LeanAirShape, v: spec_fn(int, int) -> F, n: int)
    requires
        shape.valid(),
        wiring::canonical_values(shape, v),
        satisfied(k, shape, v),
        wiring::wired(shape, v),
        0 <= n <= shape.total_rows(),
    ensures
        forall|x: int|
            0 <= x < n ==> #[trigger] row_of(v, x) == poseidon::trace_spec(
                k,
                commit::row_input(k, shape, held_data(shape, v), x),
            ),
        forall|x: int, l: int|
            0 <= x < n && 0 <= l < 8 ==> #[trigger] v(84 + l, x) == poseidon::compress_spec(
                k,
                commit::row_input(k, shape, held_data(shape, v), x),
            )[l],
    decreases n,
{
    if n > 0 {
        let x: int = n - 1;
        let input = commit::row_input(k, shape, held_data(shape, v), x);
        let row = row_of(v, x);
        lemma_rows_above(k, shape, v, x);
        lemma_inputs(k, shape, v, x);
        arith::lemma_next_pow2((shape.total_rows() + 1) as nat);
        assert forall|c: int| 0 <= c < 92 implies (#[trigger] row[c]).canonical() by {
            assert(v(c, x).canonical());
        }
        assert forall|i: int| 0 <= i < 76 implies #[trigger] air::constraints_spec(k, row)[i] == F::zero_spec() by {
            assert(air::constraints_spec(k, row_of(v, x))[i] == F::zero_spec());
        }
        air::law_constraints_determine_row(k, row);
        assert(row.subrange(0, 16) =~= input) by {
            assert forall|c: int| 0 <= c < 16 implies row.subrange(0, 16)[c] == #[trigger] input[c] by {
                assert(v(c, x) == input[c]);
            }
        }
        honest::lemma_trace_columns(k, input);
        assert forall|l: int| 0 <= l < 8 implies #[trigger] v(84 + l, x) == poseidon::compress_spec(k, input)[l] by {
            assert(row[84 + l] == v(84 + l, x));
        }
    }
}

/// Columns that satisfy every constraint and every link are a table: their hash rows are those of
/// the data that they hold, and the output of the last of them is the commitment to it.
pub proof fn law_satisfying_columns_commit(k: PoseidonConstants, shape: LeanAirShape, v: spec_fn(int, int) -> F)
    requires
        shape.valid(),
        wiring::canonical_values(shape, v),
        satisfied(k, shape, v),
        wiring::wired(shape, v),
    ensures
        links::full_rows(shape, held_data(shape, v)),
        honest::canonical_rows(held_data(shape, v)),
        forall|c: int, x: int|
            0 <= c < 92 && 0 <= x < shape.total_rows() ==> #[trigger] v(c, x) == hash_table::table_value(
                k,
                shape,
                held_data(shape, v),
                c,
                x,
            ),
        Seq::new(8, |l: int| v(84 + l, shape.final_row())) == commit::commitment_spec(k, shape, held_data(shape, v)),
{
    let data = held_data(shape, v);
    let _ = shape::lemma_shape(shape);
    links::lemma_starts(shape);
    lemma_held_rows(shape, v);
    lemma_rows_above(k, shape, v, shape.total_rows());
    assert forall|c: int, x: int| 0 <= c < 92 && 0 <= x < shape.total_rows() implies #[trigger] v(c, x)
        == hash_table::table_value(k, shape, data, c, x) by {
        assert(row_of(v, x)[c] == v(c, x));
    }
    let last = shape.final_row();
    commit::lemma_input_final(k, shape, data);
    let root = commit::commitment_spec(k, shape, data);
    hashing::lemma_compress_len(k, commit::row_input(k, shape, data, last));
    assert(Seq::new(8, |l: int| v(84 + l, last)) =~= root) by {
        assert forall|l: int| 0 <= l < 8 implies #[trigger] v(84 + l, last) == root[l] by {}
    }
}

/// The parity claim on such columns is that of the table of the data that they hold.
pub proof fn law_held_parity(
    k: PoseidonConstants,
    shape: LeanAirShape,
    v: spec_fn(int, int) -> F,
    alpha: EF,
    r: EF,
)
    requires
        shape.valid(),
        wiring::canonical_values(shape, v),
        satisfied(k, shape, v),
        wiring::wired(shape, v),
    ensures
        wiring::parity_total(shape, v, alpha, r) == sums::sum(
            16,
            |slot: int| honest::parity_claim(k, shape, held_data(shape, v), alpha, r, slot),
        ),
{
    let data = held_data(shape, v);
    let n: nat = shape.table_rows();
    let _ = shape::lemma_shape(shape);
    links::lemma_starts(shape);
    law_satisfying_columns_commit(k, shape, v);
    let a = |slot: int|
        sums::sum(n, |row: int| coefficients::parity_coeff(shape, alpha, r, slot, row).scale_spec(v(slot, row)));
    let b = |slot: int| honest::parity_claim(k, shape, data, alpha, r, slot);
    assert forall|slot: int| 0 <= slot < 16 implies #[trigger] a(slot) == b(slot) by {
        let f = |row: int| coefficients::parity_coeff(shape, alpha, r, slot, row).scale_spec(v(slot, row));
        let g = |row: int|
            coefficients::parity_coeff(shape, alpha, r, slot, row).scale_spec(
                hash_table::table_value(k, shape, data, slot, row),
            );
        assert forall|row: int| 0 <= row < n implies #[trigger] f(row) == g(row) by {
            if row < shape.systematic_start() {
                assert(v(slot, row) == hash_table::table_value(k, shape, data, slot, row));
            } else {
                ext::lemma_scale_zero(EF::zero_spec());
            }
        }
        sums::lemma_sum_ext(n, f, g);
    }
    sums::lemma_sum_ext(16, a, b);
    sums::lemma_sum_ext(
        16,
        a,
        |slot: int|
            sums::sum(
                shape.table_rows(),
                |row: int| coefficients::parity_coeff(shape, alpha, r, slot, row).scale_spec(v(slot, row)),
            ),
    );
}

} // verus!
