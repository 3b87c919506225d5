//! The claims hold of every table that was built from codewords.
use super::claims;
use super::coefficients;
use super::commit;
use super::hash_table;
use super::links;
use super::parity;
use super::schedule;
use super::shape;
use super::shape::LeanAirShape;
use super::wiring;
use crate::ext;
use crate::ext::EF;
use crate::field;
use crate::field::{F, TWO_ADICITY};
use crate::hashing;
use crate::ntt;
use crate::poseidon;
use crate::poseidon::PoseidonConstants;
use crate::sums;
use vstd::arithmetic::div_mod::*;
use vstd::arithmetic::mul::*;
use vstd::arithmetic::power2::*;
use vstd::prelude::*;

verus! {

/// The input and output columns of a trace.
pub proof fn lemma_trace_columns(k: PoseidonConstants, input: Seq<F>)
    requires
        input.len() == 16,
    ensures
        poseidon::trace_spec(k, input).len() == 92,
        forall|c: int| 0 <= c < 16 ==> #[trigger] poseidon::trace_spec(k, input)[c] == input[c],
        forall|l: int|
            0 <= l < 8 ==> #[trigger] poseidon::trace_spec(k, input)[84 + l] == poseidon::compress_spec(k, input)[l],
{
    poseidon::lemma_partial_cells(
        k,
        poseidon::enter_partial(k, poseidon::beginning_state(k, input, 1)),
        20,
    );
}

/// Every input has sixteen elements.
pub proof fn lemma_row_input_len(k: PoseidonConstants, shape: LeanAirShape, data: Seq<Seq<F>>, x: int)
    requires
        shape.valid(),
        links::full_rows(shape, data),
        0 <= x < shape.total_rows(),
    ensures
        commit::row_input(k, shape, data, x).len() == 16,
{
    let _ = shape::lemma_shape(shape);
    links::lemma_starts(shape);
    let chunks: int = shape.chunks() as int;
    let cells: int = shape.cells() as int;
    let sys: int = shape.systematic_cells() as int;
    if x < shape.systematic_start() {
        links::lemma_encode(x, shape.n_rows * cells, chunks);
        let q: int = x / chunks;
        let j: int = x % chunks;
        links::lemma_encode(q, shape.n_rows as int, cells);
        lemma_cell_len(shape, data, q / cells, q % cells);
        let cell = commit::cell_of(shape, data, q / cells, q % cells);
        if j > 0 {
            hashing::lemma_compress_len(k, hashing::cell_input(k, cell, (j - 1) as nat));
            assert((j as nat - 1) as nat == (j - 1) as nat);
        }
    } else if x < shape.row_root_start() {
        let l: int = x - shape.systematic_start();
        links::lemma_encode(l, shape.n_rows as int, sys);
        let ds = commit::systematic_digests(k, shape, data, l / sys);
        links::lemma_chain_state_len(k, ds, (l % sys) as nat);
        links::lemma_digest_len(k, shape, data, l / sys, l % sys);
    } else if x < shape.column_merkle_start() {
        let row: int = x - shape.row_root_start();
        let ds = commit::row_digest_list(k, shape, data);
        let rd = commit::systematic_digests(k, shape, data, row);
        links::lemma_chain_state_len(k, ds, row as nat);
        links::lemma_chain_state_len(k, rd, rd.len());
    } else if x < shape.column_root_start() {
        let w: int = shape.padded() - 1;
        let l: int = x - shape.column_merkle_start();
        if w == 0 {
            assert(shape.cells() * w == 0) by (nonlinear_arith)
                requires
                    w == 0,
            ;
        }
        links::lemma_encode(l, cells, w);
        let leaves = commit::column_leaves(k, shape, data, l / w);
        assert forall|m: int| 0 <= m < leaves.len() implies (#[trigger] leaves[m]).len() == 8 by {
            links::lemma_digest_len(k, shape, data, m, l / w);
        }
        let t: int = l % w;
        links::lemma_tree_entry_len(k, leaves, (2 * t) as nat);
        links::lemma_tree_entry_len(k, leaves, (2 * t + 1) as nat);
    } else if x < shape.final_row() {
        let t: int = x - shape.column_root_start();
        let leaves = commit::column_root_list(k, shape, data);
        assert forall|m: int| 0 <= m < leaves.len() implies (#[trigger] leaves[m]).len() == 8 by {
            links::lemma_column_source(k, shape, data, m);
        }
        links::lemma_tree_entry_len(k, leaves, (2 * t) as nat);
        links::lemma_tree_entry_len(k, leaves, (2 * t + 1) as nat);
    } else {
        let ds = commit::row_digest_list(k, shape, data);
        let leaves = commit::column_root_list(k, shape, data);
        links::lemma_chain_state_len(k, ds, ds.len());
        hashing::lemma_compress_len(k, hashing::tree_input(k, leaves, (cells - 2) as nat));
        assert((2 * cells - 2) as nat - leaves.len() == cells - 2);
    }
}

proof fn lemma_cell_len(shape: LeanAirShape, data: Seq<Seq<F>>, row: int, cell: int)
    requires
        shape.valid(),
        links::full_rows(shape, data),
        0 <= row < shape.n_rows,
        0 <= cell < shape.cells(),
    ensures
        commit::cell_of(shape, data, row, cell).len() == shape.cell_base(),
        0 <= cell * shape.cell_base(),
        cell * shape.cell_base() + shape.cell_base() <= 5 * shape.codeword_len(),
{
    let _ = shape::lemma_shape(shape);
    let base: int = shape.cell_base() as int;
    assert(0 <= cell * base && cell * base + base <= 5 * shape.codeword_len()) by (nonlinear_arith)
        requires
            0 <= cell,
            cell + 1 <= shape.cells(),
            base == 5 * shape.cell_len_ext,
            shape.cells() * shape.cell_len_ext == shape.codeword_len(),
    ;
}

/// The value of an input column of the table.
pub open spec fn input_value(k: PoseidonConstants, shape: LeanAirShape, data: Seq<Seq<F>>, c: int, row: int) -> F {
    hash_table::table_value(k, shape, data, c, row)
}

/// The value of an output column of the table.
pub open spec fn output_value(k: PoseidonConstants, shape: LeanAirShape, data: Seq<Seq<F>>, l: int, row: int) -> F {
    hash_table::table_value(k, shape, data, 84 + l, row)
}

/// The values of the input and output columns at a hash row.
proof fn lemma_row_values(k: PoseidonConstants, shape: LeanAirShape, data: Seq<Seq<F>>, row: int)
    requires
        shape.valid(),
        links::full_rows(shape, data),
        0 <= row < shape.total_rows(),
    ensures
        commit::row_input(k, shape, data, row).len() == 16,
        forall|c: int|
            0 <= c < 16 ==> #[trigger] input_value(k, shape, data, c, row) == commit::row_input(k, shape, data, row)[c],
        forall|l: int|
            0 <= l < 8 ==> #[trigger] output_value(k, shape, data, l, row) == poseidon::compress_spec(
                k,
                commit::row_input(k, shape, data, row),
            )[l],
{
    let input = commit::row_input(k, shape, data, row);
    lemma_row_input_len(k, shape, data, row);
    lemma_trace_columns(k, input);
    assert forall|c: int| 0 <= c < 16 implies #[trigger] input_value(k, shape, data, c, row) == input[c] by {
        assert(poseidon::trace_spec(k, input)[c] == input[c]);
    }
    assert forall|l: int| 0 <= l < 8 implies #[trigger] output_value(k, shape, data, l, row)
        == poseidon::compress_spec(k, input)[l] by {
        assert(poseidon::trace_spec(k, input)[84 + l] == poseidon::compress_spec(k, input)[l]);
    }
}

/// The steps of a cell's hash follow one another: the first half of an input is the output above it.
proof fn lemma_cell_step(k: PoseidonConstants, shape: LeanAirShape, data: Seq<Seq<F>>, row: int, l: int)
    requires
        shape.valid(),
        links::full_rows(shape, data),
        0 <= row,
        row + 1 < shape.systematic_start(),
        row % (shape.chunks() as int) < shape.chunks() - 1,
        0 <= l < 8,
    ensures
        input_value(k, shape, data, l, row + 1) == output_value(k, shape, data, l, row),
{
    let _ = shape::lemma_shape(shape);
    links::lemma_starts(shape);
    let chunks: int = shape.chunks() as int;
    let cells: int = shape.cells() as int;
    links::lemma_encode(row, shape.n_rows * cells, chunks);
    let q: int = row / chunks;
    let j: int = row % chunks;
    links::lemma_encode(q, shape.n_rows as int, cells);
    lemma_fundamental_div_mod_converse(row + 1, chunks, q, j + 1);
    lemma_row_values(k, shape, data, row);
    lemma_row_values(k, shape, data, row + 1);
    let cell = commit::cell_of(shape, data, q / cells, q % cells);
    hashing::lemma_compress_len(k, hashing::cell_input(k, cell, j as nat));
    assert(((j + 1) as nat - 1) as nat == j as nat);
}

/// The claim on the steps of cell hashes, slot by slot.
pub open spec fn cell_link_claim(
    k: PoseidonConstants,
    shape: LeanAirShape,
    data: Seq<Seq<F>>,
    point: EF,
    slot: int,
) -> EF {
    sums::sum(
        shape.table_rows(),
        |row: int|
            coefficients::cell_link_coeff(shape, point, slot, row).scale_spec(
                hash_table::table_value(k, shape, data, claims::cell_link_column_of(slot), row),
            ),
    )
}

/// The values of the table.
pub open spec fn table_values(k: PoseidonConstants, shape: LeanAirShape, data: Seq<Seq<F>>) -> spec_fn(int, int) -> F {
    |c: int, row: int| hash_table::table_value(k, shape, data, c, row)
}

/// Gaps that are all zero sum to zero.
proof fn lemma_no_gaps(count: nat, gap: spec_fn(int, int) -> F, point: EF)
    requires
        forall|n: int, l: int| 0 <= n < count && 0 <= l < 8 ==> #[trigger] gap(n, l) == F::zero_spec(),
    ensures
        wiring::gap_sum(count, gap, point) == EF::zero_spec(),
{
    let z = EF::zero_spec();
    let outer = |l: int| sums::sum(count, |n: int| point.pow((8 * n + l) as nat).scale_spec(gap(n, l)));
    assert forall|l: int| 0 <= l < 8 implies #[trigger] outer(l) == z by {
        let f = |n: int| point.pow((8 * n + l) as nat).scale_spec(gap(n, l));
        assert forall|n: int| 0 <= n < count implies #[trigger] f(n) == z by {
            assert(gap(n, l) == F::zero_spec());
            ext::lemma_scale_zero(point.pow((8 * n + l) as nat));
        }
        sums::lemma_sum_zero(count, f);
    }
    sums::lemma_sum_zero(8, outer);
}

/// Of a table that was built from any rows, the claim on the steps of cell hashes sums to zero.
pub proof fn law_cell_links_hold(k: PoseidonConstants, shape: LeanAirShape, data: Seq<Seq<F>>, point: EF)
    requires
        shape.valid(),
        links::full_rows(shape, data),
    ensures
        sums::sum(16, |slot: int| cell_link_claim(k, shape, data, point, slot)) == EF::zero_spec(),
{
    let v = table_values(k, shape, data);
    let count: nat = wiring::n_cell_links(shape);
    let gaps = wiring::cell_link_gaps(shape, v);
    let _ = shape::lemma_shape(shape);
    let chunks: int = shape.chunks() as int;
    let cells: int = shape.n_rows * shape.cells();
    assert forall|m: int, l: int| 0 <= m < count && 0 <= l < 8 implies #[trigger] gaps(m, l) == F::zero_spec() by {
        links::lemma_encode(m, cells, chunks - 1);
        let q: int = m / (chunks - 1);
        let j: int = m % (chunks - 1);
        let row: int = wiring::cell_link_row(shape, m);
        commit::lemma_decode(q, j, chunks);
        schedule::lemma_block_bound(q, cells, j + 1, chunks);
        lemma_cell_step(k, shape, data, row, l);
        field::lemma_sub_self(output_value(k, shape, data, l, row));
    }
    lemma_no_gaps(count, gaps, point);
    wiring::lemma_cell_link_total(shape, v, point);
    let a = |slot: int| cell_link_claim(k, shape, data, point, slot);
    let b = |slot: int|
        sums::sum(
            shape.table_rows(),
            |row: int|
                coefficients::cell_link_coeff(shape, point, slot, row).scale_spec(
                    v(claims::cell_link_column_of(slot), row),
                ),
        );
    assert forall|slot: int| 0 <= slot < 16 implies #[trigger] a(slot) == b(slot) by {
        sums::lemma_sum_ext(
            shape.table_rows(),
            |row: int|
                coefficients::cell_link_coeff(shape, point, slot, row).scale_spec(
                    hash_table::table_value(k, shape, data, claims::cell_link_column_of(slot), row),
                ),
            |row: int|
                coefficients::cell_link_coeff(shape, point, slot, row).scale_spec(
                    v(claims::cell_link_column_of(slot), row),
                ),
        );
    }
    sums::lemma_sum_ext(16, a, b);
}

/// The link claim, slot by slot.
pub open spec fn link_claim(
    k: PoseidonConstants,
    shape: LeanAirShape,
    data: Seq<Seq<F>>,
    point: EF,
    slot: int,
) -> EF {
    sums::sum(
        shape.table_rows(),
        |row: int|
            coefficients::link_coeff(shape, point, slot, row).scale_spec(
                hash_table::table_value(k, shape, data, claims::link_column(slot), row),
            ),
    )
}

/// The links of a table that was built from any rows hold.
proof fn lemma_link_holds(k: PoseidonConstants, shape: LeanAirShape, data: Seq<Seq<F>>, n: int, l: int)
    requires
        shape.valid(),
        links::full_rows(shape, data),
        0 <= n < coefficients::n_links(shape),
        0 <= l < 8,
    ensures
        wiring::link_gap(shape, table_values(k, shape, data), n, l) == F::zero_spec(),
{
    let x: int = shape.systematic_start() + n / 2;
    let side: int = n % 2;
    let c: int = 8 * side + l;
    let _ = shape::lemma_shape(shape);
    links::lemma_starts(shape);
    links::law_inputs_follow_from_outputs(k, shape, data, x, side);
    lemma_row_values(k, shape, data, x);
    let input = commit::row_input(k, shape, data, x);
    assert(links::half(input, side)[l] == input[c]);
    assert(input_value(k, shape, data, c, x) == input[c]);
    match links::link_source(shape, x, side) {
        Some(y) => {
            lemma_row_values(k, shape, data, y);
            assert(output_value(k, shape, data, l, y) == input[c]);
            field::lemma_sub_self(input[c]);
        },
        None => {
            assert(input[c] == F::zero_spec());
        },
    }
}

/// Of the values of such a table, the link claim is zero.
proof fn lemma_links_vanish(k: PoseidonConstants, shape: LeanAirShape, data: Seq<Seq<F>>, point: EF)
    requires
        shape.valid(),
        links::full_rows(shape, data),
    ensures
        wiring::link_total(shape, table_values(k, shape, data), point) == EF::zero_spec(),
{
    let v = table_values(k, shape, data);
    let count: nat = coefficients::n_links(shape);
    let gaps = wiring::link_gaps(shape, v);
    assert forall|n: int, l: int| 0 <= n < count && 0 <= l < 8 implies #[trigger] gaps(n, l) == F::zero_spec() by {
        lemma_link_holds(k, shape, data, n, l);
    }
    lemma_no_gaps(count, gaps, point);
    wiring::lemma_link_total(shape, v, point);
}

/// Of a table that was built from any rows, the link claim sums to zero.
pub proof fn law_links_hold(k: PoseidonConstants, shape: LeanAirShape, data: Seq<Seq<F>>, point: EF)
    requires
        shape.valid(),
        links::full_rows(shape, data),
    ensures
        sums::sum(24, |slot: int| link_claim(k, shape, data, point, slot)) == EF::zero_spec(),
{
    let v = table_values(k, shape, data);
    lemma_links_vanish(k, shape, data, point);
    let a = |slot: int| link_claim(k, shape, data, point, slot);
    let b = |slot: int|
        sums::sum(
            shape.table_rows(),
            |row: int| coefficients::link_coeff(shape, point, slot, row).scale_spec(v(claims::link_column(slot), row)),
        );
    assert forall|slot: int| 0 <= slot < 24 implies #[trigger] a(slot) == b(slot) by {
        sums::lemma_sum_ext(
            shape.table_rows(),
            |row: int|
                coefficients::link_coeff(shape, point, slot, row).scale_spec(
                    hash_table::table_value(k, shape, data, claims::link_column(slot), row),
                ),
            |row: int| coefficients::link_coeff(shape, point, slot, row).scale_spec(v(claims::link_column(slot), row)),
        );
    }
    sums::lemma_sum_ext(24, a, b);
}

/// Whether the rows are the codewords of messages.
pub open spec fn rows_of_codewords(shape: LeanAirShape, data: Seq<Seq<F>>, messages: Seq<Seq<EF>>) -> bool {
    &&& data.len() == shape.n_rows
    &&& messages.len() == shape.n_rows
    &&& forall|r: int|
        0 <= r < shape.n_rows ==> (#[trigger] messages[r]).len() == shape.message_len() && data[r]
            == hash_table::flat(ntt::codeword_spec(messages[r]))
}

/// Rows of codewords are full.
pub proof fn lemma_codeword_rows_full(shape: LeanAirShape, data: Seq<Seq<F>>, messages: Seq<Seq<EF>>)
    requires
        rows_of_codewords(shape, data, messages),
    ensures
        links::full_rows(shape, data),
{
    assert forall|r: int| 0 <= r < shape.n_rows implies (#[trigger] data[r]).len() == 5 * shape.codeword_len() by {
        assert(messages[r].len() == shape.message_len());
    }
}

/// A row of base field elements as extension field elements.
pub open spec fn word_of(row: Seq<F>) -> Seq<EF> {
    Seq::new(
        (row.len() / 5) as nat,
        |t: int|
            EF {
                c0: row[5 * t],
                c1: row[5 * t + 1],
                c2: row[5 * t + 2],
                c3: row[5 * t + 3],
                c4: row[5 * t + 4],
            },
    )
}

/// Whether every value of the rows is held canonically, which holds of all values at run time.
pub open spec fn canonical_rows(data: Seq<Seq<F>>) -> bool {
    forall|row: int, i: int|
        0 <= row < data.len() && 0 <= i < data[row].len() ==> (#[trigger] data[row][i]).canonical()
}

/// A row as a word, element by element.
pub proof fn lemma_word(shape: LeanAirShape, data: Seq<Seq<F>>, row: int)
    requires
        links::full_rows(shape, data),
        canonical_rows(data),
        0 <= row < shape.n_rows,
    ensures
        word_of(data[row]).len() == shape.codeword_len(),
        forall|t: int| 0 <= t < shape.codeword_len() ==> (#[trigger] word_of(data[row])[t]).canonical(),
        forall|t: int, limb: int|
            0 <= t < shape.codeword_len() && 0 <= limb < 5 ==> (#[trigger] word_of(data[row])[t].limb_spec(limb))
                == data[row][5 * t + limb],
{
    let word = word_of(data[row]);
    assert(data[row].len() == 5 * shape.codeword_len());
    assert forall|t: int| 0 <= t < shape.codeword_len() implies (#[trigger] word[t]).canonical() by {
        assert(data[row][5 * t].canonical());
        assert(data[row][5 * t + 1].canonical());
        assert(data[row][5 * t + 2].canonical());
        assert(data[row][5 * t + 3].canonical());
        assert(data[row][5 * t + 4].canonical());
    }
}

/// The rows of codewords are their codewords.
proof fn lemma_codeword_words(shape: LeanAirShape, data: Seq<Seq<F>>, messages: Seq<Seq<EF>>)
    requires
        rows_of_codewords(shape, data, messages),
    ensures
        canonical_rows(data),
        forall|r: int| 0 <= r < shape.n_rows ==> #[trigger] word_of(data[r]) == ntt::codeword_spec(messages[r]),
{
    assert forall|row: int, i: int| 0 <= row < data.len() && 0 <= i < data[row].len() implies (
    #[trigger] data[row][i]).canonical() by {
        assert(messages[row].len() == shape.message_len());
        lemma_word_canonical(messages[row], i / 5);
    }
    assert forall|r: int| 0 <= r < shape.n_rows implies #[trigger] word_of(data[r]) == ntt::codeword_spec(
        messages[r],
    ) by {
        let code = ntt::codeword_spec(messages[r]);
        assert(messages[r].len() == shape.message_len());
        assert forall|t: int| 0 <= t < code.len() implies #[trigger] word_of(data[r])[t] == code[t] by {
            assert((5 * t) / 5 == t && (5 * t) % 5 == 0);
            assert((5 * t + 1) / 5 == t && (5 * t + 1) % 5 == 1);
            assert((5 * t + 2) / 5 == t && (5 * t + 2) % 5 == 2);
            assert((5 * t + 3) / 5 == t && (5 * t + 3) % 5 == 3);
            assert((5 * t + 4) / 5 == t && (5 * t + 4) % 5 == 4);
        }
        assert(word_of(data[r]) =~= code);
    }
}

/// An element is the sum of its coefficients against the basis.
proof fn lemma_basis_sum(a: EF)
    requires
        a.canonical(),
    ensures
        sums::sum(5, |limb: int| EF::basis_spec(limb).scale_spec(a.limb_spec(limb))) == a,
{
    let f = |limb: int| EF::basis_spec(limb).scale_spec(a.limb_spec(limb));
    let z = F::zero_spec();
    reveal_with_fuel(sums::sum, 6);
    field::lemma_unit_row(a.c0, a.c1, a.c2, a.c3, a.c4);
    field::lemma_of_val(0);
    field::lemma_add_zero(z);
    assert forall|v: F| v.canonical() implies #[trigger] (F::one_spec() * v) == v && z * v == z by {
        field::lemma_mul_one(v);
        field::lemma_mul_zero(v);
    }
    field::lemma_mul_one(a.c0);
    field::lemma_mul_one(a.c1);
    field::lemma_mul_one(a.c2);
    field::lemma_mul_one(a.c3);
    field::lemma_mul_one(a.c4);
    field::lemma_mul_zero(a.c0);
    field::lemma_mul_zero(a.c1);
    field::lemma_mul_zero(a.c2);
    field::lemma_mul_zero(a.c3);
    field::lemma_mul_zero(a.c4);
    assert(f(0) == EF { c0: a.c0, c1: z, c2: z, c3: z, c4: z });
    assert(f(1) == EF { c0: z, c1: a.c1, c2: z, c3: z, c4: z });
    assert(f(2) == EF { c0: z, c1: z, c2: a.c2, c3: z, c4: z });
    assert(f(3) == EF { c0: z, c1: z, c2: z, c3: a.c3, c4: z });
    assert(f(4) == EF { c0: z, c1: z, c2: z, c3: z, c4: a.c4 });
    field::lemma_add_zero(a.c0);
    field::lemma_add_zero(a.c1);
    field::lemma_add_zero(a.c2);
    field::lemma_add_zero(a.c3);
    field::lemma_add_zero(a.c4);
    assert(sums::sum(5, f) == EF::zero_spec() + f(0) + f(1) + f(2) + f(3) + f(4));
}

/// A weight against the coefficients of an element.
proof fn lemma_weighted_limbs(w: EF, a: EF)
    requires
        a.canonical(),
    ensures
        sums::sum(5, |limb: int| (w * EF::basis_spec(limb)).scale_spec(a.limb_spec(limb))) == w * a,
{
    let f = |limb: int| EF::basis_spec(limb).scale_spec(a.limb_spec(limb));
    let g = |limb: int| (w * EF::basis_spec(limb)).scale_spec(a.limb_spec(limb));
    let h = |limb: int| w * f(limb);
    assert forall|limb: int| 0 <= limb < 5 implies #[trigger] g(limb) == h(limb) by {
        ext::lemma_mul_scale_right(w, EF::basis_spec(limb), a.limb_spec(limb));
    }
    sums::lemma_sum_ext(5, g, h);
    sums::lemma_sum_mul_left(w, 5, f);
    lemma_basis_sum(a);
}

/// The parity term of base field element `b` of a cell.
spec fn limb_term(shape: LeanAirShape, alpha: EF, r: EF, data: Seq<Seq<F>>, row: int, cell: int, b: int) -> EF {
    (coefficients::term_weight(shape.log_m as nat, alpha, r, row, cell * shape.cell_len_ext + b / 5)
        * EF::basis_spec(b % 5)).scale_spec(commit::cell_of(shape, data, row, cell)[b])
}

/// The parity terms of the sixteen input columns of a step of a cell's hash.
spec fn step_terms(
    k: PoseidonConstants,
    shape: LeanAirShape,
    alpha: EF,
    r: EF,
    data: Seq<Seq<F>>,
    row: int,
    cell: int,
    chunk: int,
) -> EF {
    sums::sum(
        16,
        |c: int|
            coefficients::cell_parity_coeff(shape, alpha, r, row, cell, chunk, c).scale_spec(
                hashing::cell_input(k, commit::cell_of(shape, data, row, cell), chunk as nat)[c],
            ),
    )
}

/// The terms of the first `n` steps of a cell's hash are those of its first `8 + 8 n` elements.
proof fn lemma_steps_to_limbs(
    k: PoseidonConstants,
    shape: LeanAirShape,
    alpha: EF,
    r: EF,
    data: Seq<Seq<F>>,
    row: int,
    cell: int,
    n: nat,
)
    requires
        shape.valid(),
        links::full_rows(shape, data),
        0 <= row < shape.n_rows,
        0 <= cell < shape.cells(),
        1 <= n <= shape.chunks(),
    ensures
        sums::sum(n, |j: int| step_terms(k, shape, alpha, r, data, row, cell, j)) == sums::sum(
            8 + 8 * n,
            |b: int| limb_term(shape, alpha, r, data, row, cell, b),
        ),
    decreases n,
{
    let z = EF::zero_spec();
    let g = |b: int| limb_term(shape, alpha, r, data, row, cell, b);
    let h = |j: int| step_terms(k, shape, alpha, r, data, row, cell, j);
    let cells = commit::cell_of(shape, data, row, cell);
    let _ = shape::lemma_shape(shape);
    lemma_cell_len(shape, data, row, cell);
    let j: int = n - 1;
    let t = |c: int|
        coefficients::cell_parity_coeff(shape, alpha, r, row, cell, j, c).scale_spec(
            hashing::cell_input(k, cells, j as nat)[c],
        );
    if n == 1 {
        sums::lemma_sum_ext(16, t, g);
        assert(sums::sum(1, h) == sums::sum(0, h) + h(0));
        sums::lemma_sum_canonical(16, t);
        ext::lemma_add_zero(h(0));
        assert(8 + 8 * n == 16);
    } else {
        let m: nat = (n - 1) as nat;
        lemma_steps_to_limbs(k, shape, alpha, r, data, row, cell, m);
        sums::lemma_sum_split(8 + 8 * m, 8, g);
        // The first eight columns hold the state, the last eight the next elements of the cell.
        sums::lemma_sum_split(8, 8, t);
        ext::lemma_scale_zero(z);
        assert forall|c: int| 0 <= c < 8 implies #[trigger] t(c) == z by {}
        sums::lemma_sum_zero(8, t);
        let t8 = |i: int| t(8nat + i);
        let g8 = |i: int| g((8 + 8 * m) as nat + i);
        hashing::lemma_compress_len(k, hashing::cell_input(k, cells, (j - 1) as nat));
        assert forall|i: int| 0 <= i < 8 implies #[trigger] t8(i) == g8(i) by {
            let b: int = 16 + (j - 1) * 8 + (8 + i) - 8;
            assert(b == 8 + 8 * m + i);
            assert((j as nat - 1) as nat == (j - 1) as nat);
            assert(hashing::cell_input(k, cells, j as nat)[8 + i] == cells[b]);
        }
        sums::lemma_sum_ext(8, t8, g8);
        sums::lemma_sum_canonical(8, t8);
        ext::lemma_add_zero(sums::sum(8, t8));
        assert(8 + 8 * n == (8 + 8 * m) + 8);
    }
}

/// The terms of a cell are the weights of its elements against them.
proof fn lemma_cell_terms(shape: LeanAirShape, alpha: EF, r: EF, data: Seq<Seq<F>>, row: int, cell: int)
    requires
        shape.valid(),
        links::full_rows(shape, data),
        canonical_rows(data),
        0 <= row < shape.n_rows,
        0 <= cell < shape.cells(),
    ensures
        sums::sum(shape.cell_base(), |b: int| limb_term(shape, alpha, r, data, row, cell, b)) == sums::sum(
            shape.cell_len_ext as nat,
            |i: int|
                coefficients::term_weight(shape.log_m as nat, alpha, r, row, cell * shape.cell_len_ext + i)
                    * word_of(data[row])[cell * shape.cell_len_ext + i],
        ),
{
    let len: nat = shape.cell_len_ext as nat;
    let word = word_of(data[row]);
    let g = |b: int| limb_term(shape, alpha, r, data, row, cell, b);
    let _ = shape::lemma_shape(shape);
    lemma_word(shape, data, row);
    lemma_cell_len(shape, data, row, cell);
    sums::lemma_sum_blocks(len, 5, g);
    let inner = |i: int| sums::sum(5, |j: int| g(i * 5nat + j));
    let goal = |i: int|
        coefficients::term_weight(shape.log_m as nat, alpha, r, row, cell * shape.cell_len_ext + i)
            * word[cell * shape.cell_len_ext + i];
    assert forall|i: int| 0 <= i < len implies #[trigger] inner(i) == goal(i) by {
        let t: int = cell * shape.cell_len_ext + i;
        schedule::lemma_block_bound(cell, shape.cells() as int, i, len as int);
        let w = coefficients::term_weight(shape.log_m as nat, alpha, r, row, t);
        let a = word[t];
        lemma_weighted_limbs(w, a);
        let x = |j: int| g(i * 5nat + j);
        let y = |limb: int| (w * EF::basis_spec(limb)).scale_spec(a.limb_spec(limb));
        assert forall|j: int| 0 <= j < 5 implies #[trigger] x(j) == y(j) by {
            let b: int = i * 5 + j;
            assert(b / 5 == i && b % 5 == j);
            let p: int = cell * shape.cell_base() + b;
            assert(p == 5 * t + j) by (nonlinear_arith)
                requires
                    p == cell * shape.cell_base() + i * 5 + j,
                    shape.cell_base() == 5 * shape.cell_len_ext,
                    t == cell * shape.cell_len_ext + i,
            ;
            assert(commit::cell_of(shape, data, row, cell)[b] == data[row][p]);
            assert(word_of(data[row])[t].limb_spec(j) == data[row][5 * t + j]);
        }
        sums::lemma_sum_ext(5, x, y);
    }
    sums::lemma_sum_ext(len, inner, goal);
    assert(len * 5 == shape.cell_base());
}

proof fn lemma_word_canonical(message: Seq<EF>, t: int)
    requires
        0 <= t < 2 * message.len(),
    ensures
        ntt::codeword_spec(message)[t].canonical(),
{
    let c = |j: int| message[j];
    let x = F::root(crate::arith::log2_ceil_spec(2 * message.len())).pow(t as nat);
    sums::lemma_sum_canonical(message.len(), |j: int| c(j).scale_spec(x.pow(j as nat)));
}

/// The weights of a row against its word sum to the difference of its halves.
proof fn lemma_row_parity(shape: LeanAirShape, alpha: EF, r: EF, word: Seq<EF>, row: int)
    requires
        word.len() == shape.codeword_len(),
        0 <= row,
    ensures
        sums::sum(
            shape.codeword_len(),
            |t: int| coefficients::term_weight(shape.log_m as nat, alpha, r, row, t) * word[t],
        ) == row_check(shape, alpha, r, word, row),
{
    let m: nat = shape.message_len();
    let l: nat = shape.log_m as nat;
    let a = alpha.pow(row as nat);
    let f = |t: int| coefficients::term_weight(l, alpha, r, row, t) * word[t];
    sums::lemma_sum_even_odd(m, f);
    let even = |j: int| parity::parity_weight(l, r, 2 * j + 0) * word[2 * j + 0];
    let odd = |j: int| parity::parity_weight(l, r, 2 * j + 1) * word[2 * j + 1];
    let fe = |j: int| f(2 * j);
    let fo = |j: int| f(2 * j + 1);
    let ae = |j: int| a * even(j);
    let na = a.negate_spec();
    let ao = |j: int| na * odd(j);
    assert forall|j: int| 0 <= j < m implies #[trigger] fe(j) == ae(j) by {
        assert((2 * j) % 2 == 0);
        assert(2 * j + 0 == 2 * j);
        ext::lemma_mul_assoc(a, parity::parity_weight(l, r, 2 * j), word[2 * j]);
    }
    assert forall|j: int| 0 <= j < m implies #[trigger] fo(j) == ao(j) by {
        assert((2 * j + 1) % 2 == 1);
        let p = parity::parity_weight(l, r, 2 * j + 1);
        ext::lemma_negate_mul_left(a, p);
        ext::lemma_mul_assoc(na, p, word[2 * j + 1]);
    }
    sums::lemma_sum_ext(m, fe, ae);
    sums::lemma_sum_ext(m, fo, ao);
    sums::lemma_sum_mul_left(a, m, even);
    sums::lemma_sum_mul_left(na, m, odd);
    let (e, o) = (parity::half_check(l, r, word, 0), parity::half_check(l, r, word, 1));
    sums::lemma_sum_ext(
        m,
        even,
        |j: int| parity::parity_weight(l, r, 2 * j + 0int) * word[2 * j + 0int],
    );
    assert(sums::sum(m, even) == e);
    assert(sums::sum(m, odd) == o);
    ext::lemma_negate_mul_left(a, o);
    ext::lemma_sub_is_add_neg(a * e, a * o);
    ext::lemma_mul_distrib_sub_right(a, e, o);
}

/// What a row adds to the parity claim: the difference of the checks of its halves, with the weight
/// of the row.
pub open spec fn row_check(shape: LeanAirShape, alpha: EF, r: EF, word: Seq<EF>, row: int) -> EF {
    alpha.pow(row as nat) * (parity::half_check(shape.log_m as nat, r, word, 0) - parity::half_check(
        shape.log_m as nat,
        r,
        word,
        1,
    ))
}

/// The parity claim, slot by slot.
pub open spec fn parity_claim(
    k: PoseidonConstants,
    shape: LeanAirShape,
    data: Seq<Seq<F>>,
    alpha: EF,
    r: EF,
    slot: int,
) -> EF {
    sums::sum(
        shape.table_rows(),
        |row: int|
            coefficients::parity_coeff(shape, alpha, r, slot, row).scale_spec(
                hash_table::table_value(k, shape, data, slot, row),
            ),
    )
}

/// The parity claim of a table that was built from any rows is the sum of the differences of the
/// checks of the halves of its rows, with the weights of the rows.
pub proof fn law_parity_sum(k: PoseidonConstants, shape: LeanAirShape, data: Seq<Seq<F>>, alpha: EF, r: EF)
    requires
        shape.valid(),
        links::full_rows(shape, data),
        canonical_rows(data),
    ensures
        sums::sum(16, |slot: int| parity_claim(k, shape, data, alpha, r, slot)) == sums::sum(
            shape.n_rows as nat,
            |row: int|
                alpha.pow(row as nat) * (parity::half_check(shape.log_m as nat, r, word_of(data[row]), 0)
                    - parity::half_check(shape.log_m as nat, r, word_of(data[row]), 1)),
        ),
{
    let z = EF::zero_spec();
    let _ = shape::lemma_shape(shape);
    links::lemma_starts(shape);
    crate::arith::lemma_next_pow2((shape.total_rows() + 1) as nat);
    let s: nat = shape.systematic_start();
    let chunks: nat = shape.chunks();
    let cells: nat = shape.cells();
    let n_rows: nat = shape.n_rows as nat;
    let term = |c: int, row: int|
        coefficients::parity_coeff(shape, alpha, r, c, row).scale_spec(
            hash_table::table_value(k, shape, data, c, row),
        );
    // Only the rows of the cells count.
    let claim = |slot: int| parity_claim(k, shape, data, alpha, r, slot);
    let short = |c: int| sums::sum(s, |row: int| term(c, row));
    assert forall|c: int| 0 <= c < 16 implies #[trigger] claim(c) == short(c) by {
        let f = |row: int|
            coefficients::parity_coeff(shape, alpha, r, c, row).scale_spec(
                hash_table::table_value(k, shape, data, c, row),
            );
        ext::lemma_scale_zero(z);
        assert forall|i: int| 0 <= i < shape.table_rows() && !(0 <= i < 0 + s) implies #[trigger] f(i) == z by {}
        sums::lemma_sum_window(0, s, shape.table_rows(), f);
        sums::lemma_sum_ext(s, |i: int| f(0nat + i), |row: int| term(c, row));
    }
    sums::lemma_sum_ext(16, claim, short);
    sums::lemma_sum_swap(16, s, term);
    let by_row = |row: int| sums::sum(16, |c: int| term(c, row));
    // Rows by cell and step.
    sums::lemma_sum_blocks(n_rows * cells, chunks, by_row);
    let by_cell = |q: int| sums::sum(chunks, |j: int| by_row(q * chunks + j));
    let word_term = |row: int, t: int|
        coefficients::term_weight(shape.log_m as nat, alpha, r, row, t) * word_of(data[row])[t];
    let len: nat = shape.cell_len_ext as nat;
    let cell_sum = |q: int|
        sums::sum(len, |i: int| word_term(q / (cells as int), (q % (cells as int)) * shape.cell_len_ext + i));
    assert forall|row: int|
        #[trigger] by_row(row) == sums::sum(
            16,
            |c: int|
                coefficients::parity_coeff(shape, alpha, r, c, row).scale_spec(
                    hash_table::table_value(k, shape, data, c, row),
                ),
        ) by {
        sums::lemma_sum_ext(
            16,
            |c: int| term(c, row),
            |c: int|
                coefficients::parity_coeff(shape, alpha, r, c, row).scale_spec(
                    hash_table::table_value(k, shape, data, c, row),
                ),
        );
    }
    assert forall|q: int| 0 <= q < n_rows * cells implies #[trigger] by_cell(q) == cell_sum(q) by {
        lemma_one_cell(k, shape, data, alpha, r, q, by_row);
        let row: int = q / (cells as int);
        let cell: int = q % (cells as int);
        sums::lemma_sum_ext(
            len,
            |i: int|
                coefficients::term_weight(shape.log_m as nat, alpha, r, row, cell * shape.cell_len_ext + i)
                    * word_of(data[row])[cell * shape.cell_len_ext + i],
            |i: int| word_term(q / (cells as int), (q % (cells as int)) * shape.cell_len_ext + i),
        );
    }
    sums::lemma_sum_ext(n_rows * cells, by_cell, cell_sum);
    // Cells by row.
    sums::lemma_sum_blocks(n_rows, cells, cell_sum);
    let by_codeword = |row: int| sums::sum(cells, |c: int| cell_sum(row * cells + c));
    let checks = |row: int| row_check(shape, alpha, r, word_of(data[row]), row);
    assert forall|row: int| 0 <= row < n_rows implies #[trigger] by_codeword(row) == checks(row) by {
        let w = |t: int| word_term(row, t);
        sums::lemma_sum_blocks(cells, len, w);
        let a = |c: int| cell_sum(row * cells + c);
        let b = |c: int| sums::sum(len, |i: int| w(c * len + i));
        assert forall|c: int| 0 <= c < cells implies #[trigger] a(c) == b(c) by {
            commit::lemma_decode(row, c, cells as int);
            sums::lemma_sum_ext(
                len,
                |i: int|
                    word_term(
                        (row * cells + c) / (cells as int),
                        ((row * cells + c) % (cells as int)) * shape.cell_len_ext + i,
                    ),
                |i: int| w(c * len + i),
            );
        }
        sums::lemma_sum_ext(cells, a, b);
        lemma_word(shape, data, row);
        lemma_row_parity(shape, alpha, r, word_of(data[row]), row);
        sums::lemma_sum_ext(
            shape.codeword_len(),
            w,
            |t: int|
                coefficients::term_weight(shape.log_m as nat, alpha, r, row, t) * word_of(data[row])[t],
        );
    }
    sums::lemma_sum_ext(n_rows, by_codeword, checks);
    assert(n_rows * cells * chunks == s);
    sums::lemma_sum_ext(
        n_rows,
        checks,
        |row: int|
            alpha.pow(row as nat) * (parity::half_check(shape.log_m as nat, r, word_of(data[row]), 0)
                - parity::half_check(shape.log_m as nat, r, word_of(data[row]), 1)),
    );
}

/// Of a table that was built from codewords, the parity claim sums to zero.
pub proof fn law_parity_holds(
    k: PoseidonConstants,
    shape: LeanAirShape,
    data: Seq<Seq<F>>,
    messages: Seq<Seq<EF>>,
    alpha: EF,
    r: EF,
)
    requires
        shape.valid(),
        shape.log_m < TWO_ADICITY,
        rows_of_codewords(shape, data, messages),
    ensures
        sums::sum(16, |slot: int| parity_claim(k, shape, data, alpha, r, slot)) == EF::zero_spec(),
{
    let l: nat = shape.log_m as nat;
    let f = |row: int|
        alpha.pow(row as nat) * (parity::half_check(l, r, word_of(data[row]), 0) - parity::half_check(
            l,
            r,
            word_of(data[row]),
            1,
        ));
    lemma_codeword_rows_full(shape, data, messages);
    lemma_codeword_words(shape, data, messages);
    law_parity_sum(k, shape, data, alpha, r);
    sums::lemma_sum_ext(
        shape.n_rows as nat,
        f,
        |row: int|
            alpha.pow(row as nat) * (parity::half_check(shape.log_m as nat, r, word_of(data[row]), 0)
                - parity::half_check(shape.log_m as nat, r, word_of(data[row]), 1)),
    );
    assert forall|row: int| 0 <= row < shape.n_rows implies #[trigger] f(row) == EF::zero_spec() by {
        assert(word_of(data[row]) == ntt::codeword_spec(messages[row]));
        assert(messages[row].len() == shape.message_len());
        let word = ntt::codeword_spec(messages[row]);
        parity::law_codeword_parity(l, r, messages[row]);
        sums::lemma_sum_ext(
            pow2(l),
            |j: int| parity::parity_weight(l, r, 2 * j) * word[2 * j],
            |j: int| parity::parity_weight(l, r, 2 * j + 0int) * word[2 * j + 0int],
        );
        ext::lemma_sub_self(parity::half_check(l, r, word, 0));
        ext::lemma_mul_zero(alpha.pow(row as nat));
    }
    sums::lemma_sum_zero(shape.n_rows as nat, f);
}

/// The parity terms of all rows of one cell.
proof fn lemma_one_cell(
    k: PoseidonConstants,
    shape: LeanAirShape,
    data: Seq<Seq<F>>,
    alpha: EF,
    r: EF,
    q: int,
    by_row: spec_fn(int) -> EF,
)
    requires
        shape.valid(),
        links::full_rows(shape, data),
        canonical_rows(data),
        0 <= q < shape.n_rows * shape.cells(),
        forall|row: int|
            #[trigger] by_row(row) == sums::sum(
                16,
                |c: int|
                    coefficients::parity_coeff(shape, alpha, r, c, row).scale_spec(
                        hash_table::table_value(k, shape, data, c, row),
                    ),
            ),
    ensures
        sums::sum(shape.chunks(), |j: int| by_row(q * shape.chunks() + j)) == sums::sum(
            shape.cell_len_ext as nat,
            |i: int|
                coefficients::term_weight(
                    shape.log_m as nat,
                    alpha,
                    r,
                    q / (shape.cells() as int),
                    (q % (shape.cells() as int)) * shape.cell_len_ext + i,
                ) * word_of(data[q / (shape.cells() as int)])[(q % (shape.cells() as int)) * shape.cell_len_ext + i],
        ),
{
    let _ = shape::lemma_shape(shape);
    links::lemma_starts(shape);
    let chunks: nat = shape.chunks();
    let cells: int = shape.cells() as int;
    links::lemma_encode(q, shape.n_rows as int, cells);
    let row: int = q / cells;
    let cell: int = q % cells;
    let a = |j: int| by_row(q * shape.chunks() + j);
    let b = |j: int| step_terms(k, shape, alpha, r, data, row, cell, j);
    assert forall|j: int| 0 <= j < chunks implies #[trigger] a(j) == b(j) by {
        let x: int = q * chunks + j;
        commit::lemma_decode(q, j, chunks as int);
        schedule::lemma_block_bound(q, shape.n_rows * cells, j, chunks as int);
        lemma_row_values(k, shape, data, x);
        let u = |c: int|
            coefficients::parity_coeff(shape, alpha, r, c, x).scale_spec(
                hash_table::table_value(k, shape, data, c, x),
            );
        let v = |c: int|
            coefficients::cell_parity_coeff(shape, alpha, r, row, cell, j, c).scale_spec(
                hashing::cell_input(k, commit::cell_of(shape, data, row, cell), j as nat)[c],
            );
        assert forall|c: int| 0 <= c < 16 implies #[trigger] u(c) == v(c) by {
            assert(input_value(k, shape, data, c, x) == commit::row_input(k, shape, data, x)[c]);
        }
        sums::lemma_sum_ext(16, u, v);
    }
    sums::lemma_sum_ext(chunks, a, b);
    lemma_steps_to_limbs(k, shape, alpha, r, data, row, cell, chunks);
    assert(8 + 8 * chunks == shape.cell_base());
    lemma_cell_terms(shape, alpha, r, data, row, cell);
}

/// The mixed claim, slot by slot.
pub open spec fn mixed_claim(
    k: PoseidonConstants,
    shape: LeanAirShape,
    data: Seq<Seq<F>>,
    alpha: EF,
    parity_point: EF,
    link_point: EF,
    link_mix: EF,
    slot: int,
) -> EF {
    sums::sum(
        shape.table_rows(),
        |row: int|
            claims::mixed_coeff(shape, alpha, parity_point, link_point, link_mix, slot, row).scale_spec(
                hash_table::table_value(k, shape, data, claims::link_column(slot), row),
            ),
    )
}

/// Of a table that was built from any rows, the mixed claim is the parity claim: the links of such a
/// table hold.
pub proof fn law_mixed_claim_is_parity(
    k: PoseidonConstants,
    shape: LeanAirShape,
    data: Seq<Seq<F>>,
    alpha: EF,
    parity_point: EF,
    link_point: EF,
    link_mix: EF,
)
    requires
        shape.valid(),
        links::full_rows(shape, data),
    ensures
        sums::sum(
            24,
            |slot: int| mixed_claim(k, shape, data, alpha, parity_point, link_point, link_mix, slot),
        ) == sums::sum(16, |slot: int| parity_claim(k, shape, data, alpha, parity_point, slot)),
{
    let v = table_values(k, shape, data);
    let n: nat = shape.table_rows();
    lemma_links_vanish(k, shape, data, link_point);
    wiring::lemma_mixed_total(shape, v, alpha, parity_point, link_point, link_mix);
    let mixed = |slot: int| mixed_claim(k, shape, data, alpha, parity_point, link_point, link_mix, slot);
    let par = |slot: int| parity_claim(k, shape, data, alpha, parity_point, slot);
    let mixed_values = |slot: int|
        sums::sum(
            n,
            |row: int|
                claims::mixed_coeff(shape, alpha, parity_point, link_point, link_mix, slot, row).scale_spec(
                    v(claims::link_column(slot), row),
                ),
        );
    let par_values = |slot: int|
        sums::sum(
            n,
            |row: int| coefficients::parity_coeff(shape, alpha, parity_point, slot, row).scale_spec(v(slot, row)),
        );
    assert forall|slot: int| 0 <= slot < 24 implies #[trigger] mixed(slot) == mixed_values(slot) by {
        sums::lemma_sum_ext(
            n,
            |row: int|
                claims::mixed_coeff(shape, alpha, parity_point, link_point, link_mix, slot, row).scale_spec(
                    hash_table::table_value(k, shape, data, claims::link_column(slot), row),
                ),
            |row: int|
                claims::mixed_coeff(shape, alpha, parity_point, link_point, link_mix, slot, row).scale_spec(
                    v(claims::link_column(slot), row),
                ),
        );
    }
    assert forall|slot: int| 0 <= slot < 16 implies #[trigger] par(slot) == par_values(slot) by {
        sums::lemma_sum_ext(
            n,
            |row: int|
                coefficients::parity_coeff(shape, alpha, parity_point, slot, row).scale_spec(
                    hash_table::table_value(k, shape, data, slot, row),
                ),
            |row: int| coefficients::parity_coeff(shape, alpha, parity_point, slot, row).scale_spec(v(slot, row)),
        );
    }
    sums::lemma_sum_ext(24, mixed, mixed_values);
    sums::lemma_sum_ext(16, par, par_values);
    let total = sums::sum(16, par);
    sums::lemma_sum_canonical(16, par);
    ext::lemma_mul_zero(link_mix);
    ext::lemma_add_comm(EF::zero_spec(), total);
    ext::lemma_add_zero(total);
}

/// Of a table that was built from codewords, the mixed claim sums to zero.
pub proof fn law_mixed_claim_holds(
    k: PoseidonConstants,
    shape: LeanAirShape,
    data: Seq<Seq<F>>,
    messages: Seq<Seq<EF>>,
    alpha: EF,
    parity_point: EF,
    link_point: EF,
    link_mix: EF,
)
    requires
        shape.valid(),
        shape.log_m < TWO_ADICITY,
        rows_of_codewords(shape, data, messages),
    ensures
        sums::sum(
            24,
            |slot: int| mixed_claim(k, shape, data, alpha, parity_point, link_point, link_mix, slot),
        ) == EF::zero_spec(),
{
    lemma_codeword_rows_full(shape, data, messages);
    law_mixed_claim_is_parity(k, shape, data, alpha, parity_point, link_point, link_mix);
    law_parity_holds(k, shape, data, messages, alpha, parity_point);
}

} // verus!
