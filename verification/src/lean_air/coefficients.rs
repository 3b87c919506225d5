//! The coefficients of the linear claims on the table.
use super::links;
use super::parity;
use super::schedule;
use super::schedule::ScheduleRanges;
use super::shape;
use super::shape::LeanAirShape;
use super::sparse;
use super::sparse::SparseCoeff;
use crate::ext;
use crate::ext::EF;
use crate::field::TWO_ADICITY;
use crate::mle;
use crate::sums;
use vstd::arithmetic::div_mod::*;
use vstd::prelude::*;

verus! {

/// The number of links: two for every row after those of the cells.
pub open spec fn n_links(shape: LeanAirShape) -> nat {
    (2 * (shape.total_rows() - shape.systematic_start())) as nat
}

/// The row that link `n` comes from; negative where that half of the input is zero.
pub open spec fn link_place(shape: LeanAirShape, n: int) -> int {
    match links::link_source(shape, shape.systematic_start() + n / 2, n % 2) {
        Some(y) => y,
        None => -1,
    }
}

/// The coefficient of input column `c` at a row: minus the weight of the element where it has a
/// source, the weight where it must be zero, and zero on the rows of the cells and below.
pub open spec fn input_coeff(shape: LeanAirShape, point: EF, c: int, row: int) -> EF {
    if shape.systematic_start() <= row < shape.total_rows() {
        let w = point.pow((16 * (row - shape.systematic_start()) + c) as nat);
        if links::link_source(shape, row, c / 8) is Some {
            w.negate_spec()
        } else {
            w
        }
    } else {
        EF::zero_spec()
    }
}

/// The coefficient of output column `l` at a row: the weights of the elements that come from there.
pub open spec fn output_coeff(shape: LeanAirShape, point: EF, l: int, row: int) -> EF {
    sums::sum(
        n_links(shape),
        |n: int|
            if link_place(shape, n) == row {
                point.pow((8 * n + l) as nat)
            } else {
                EF::zero_spec()
            },
    )
}

/// The coefficient of the link claim in a slot: sixteen input columns, then eight output columns.
pub open spec fn link_coeff(shape: LeanAirShape, point: EF, slot: int, row: int) -> EF {
    if slot < 16 {
        input_coeff(shape, point, slot, row)
    } else {
        output_coeff(shape, point, slot - 16, row)
    }
}

/// The sources of all links.
pub fn link_sources(shape: LeanAirShape, ranges: ScheduleRanges) -> (r: Vec<Option<usize>>)
    requires
        shape.valid(),
        shape.fits_rows(),
        ranges.of_shape(shape),
    ensures
        r@.len() == n_links(shape),
        forall|n: int|
            0 <= n < r@.len() ==> match #[trigger] r@[n] {
                Some(y) => link_place(shape, n) == y && y < shape.total_rows(),
                None => link_place(shape, n) == -1,
            },
        forall|n: int|
            0 <= n < r@.len() ==> (#[trigger] r@[n] is Some <==> links::link_source(
                shape,
                shape.systematic_start() + n / 2,
                n % 2,
            ) is Some),
{
    proof {
        schedule::lemma_row_products_valid(shape);
        links::lemma_starts(shape);
    }
    let mut out: Vec<Option<usize>> = Vec::new();
    let mut x: usize = ranges.systematic_row_start;
    while x <= ranges.final_root_row
        invariant
            shape.valid(),
            shape.fits_rows(),
            ranges.of_shape(shape),
            shape.total_rows() <= usize::MAX,
            shape.systematic_start() <= x <= shape.total_rows(),
            out@.len() == 2 * (x - shape.systematic_start()),
            forall|n: int|
                0 <= n < out@.len() ==> match #[trigger] out@[n] {
                    Some(y) => link_place(shape, n) == y && y < shape.total_rows(),
                    None => link_place(shape, n) == -1,
                },
            forall|n: int|
                0 <= n < out@.len() ==> (#[trigger] out@[n] is Some <==> links::link_source(
                    shape,
                    shape.systematic_start() + n / 2,
                    n % 2,
                ) is Some),
        decreases shape.total_rows() - x,
    {
        let ghost n0: int = out@.len() as int;
        assert(n0 / 2 == x - shape.systematic_start());
        assert((n0 + 1) / 2 == x - shape.systematic_start());
        out.push(links::source_row(shape, ranges, x, 0));
        out.push(links::source_row(shape, ranges, x, 1));
        x = x + 1;
    }
    out
}

/// The weights of a column step by a fixed power.
proof fn lemma_weight_step(point: EF, a: nat, step: nat)
    ensures
        point.pow(a) * point.pow(step) == point.pow(a + step),
{
    ext::lemma_pow_add(point, a, step);
}

/// The sparse column of an input slot.
fn input_link_column(
    shape: LeanAirShape,
    ranges: ScheduleRanges,
    sources: &Vec<Option<usize>>,
    c: usize,
    poseidon_rows: usize,
    weights: &Vec<EF>,
    Ghost(point): Ghost<EF>,
) -> (r: Vec<SparseCoeff>)
    requires
        shape.valid(),
        shape.fits_rows(),
        ranges.of_shape(shape),
        c < 16,
        poseidon_rows >= shape.total_rows(),
        sources@.len() == n_links(shape),
        forall|n: int|
            0 <= n < sources@.len() ==> (#[trigger] sources@[n] is Some <==> links::link_source(
                shape,
                shape.systematic_start() + n / 2,
                n % 2,
            ) is Some),
        weights@.len() == 17,
        forall|i: int| 0 <= i < 17 ==> #[trigger] weights@[i] == point.pow(i as nat),
    ensures
        sparse::lists(r@, poseidon_rows as int, |row: int| input_coeff(shape, point, c as int, row)),
{
    proof {
        schedule::lemma_row_products_valid(shape);
        links::lemma_starts(shape);
    }
    let start: usize = ranges.systematic_row_start;
    let side: usize = c / 8;
    let mut out: Vec<SparseCoeff> = Vec::new();
    let mut weight = weights[c];
    let step = weights[16];
    let mut x: usize = start;
    let n_sources: usize = sources.len();
    proof {
        assert forall|row: int| 0 <= row < x implies #[trigger] sparse::value_at(out@, row) == input_coeff(
            shape,
            point,
            c as int,
            row,
        ) by {
            sparse::lemma_value_unlisted(out@, row);
        }
    }
    while x <= ranges.final_root_row
        invariant
            shape.valid(),
            ranges.of_shape(shape),
            c < 16,
            side == c / 8,
            start == shape.systematic_start(),
            shape.total_rows() <= usize::MAX,
            start <= x <= shape.total_rows(),
            sources@.len() == n_links(shape),
            n_sources == sources@.len(),
            forall|n: int|
                0 <= n < sources@.len() ==> (#[trigger] sources@[n] is Some <==> links::link_source(
                    shape,
                    shape.systematic_start() + n / 2,
                    n % 2,
                ) is Some),
            weight == point.pow((16 * (x - start) + c) as nat),
            step == point.pow(16),
            sparse::strictly_sorted(out@),
            sparse::rows_below(out@, x as int),
            sparse::no_zeros(out@),
            forall|row: int|
                0 <= row < x ==> #[trigger] sparse::value_at(out@, row) == input_coeff(shape, point, c as int, row),
        decreases shape.total_rows() - x,
    {
        let n: usize = 2 * (x - start) + side;
        assert(n as int / 2 == x - start && n as int % 2 == side);
        let coeff = if sources[n].is_some() {
            weight.negate()
        } else {
            weight
        };
        assert(coeff == input_coeff(shape, point, c as int, x as int));
        coeff.assert_canonical();
        let ghost before = out@;
        sparse::push_term(&mut out, x, coeff);
        proof {
            sparse::lemma_push_next(before, x, coeff);
            assert forall|row: int| 0 <= row < x + 1 implies #[trigger] sparse::value_at(out@, row) == input_coeff(
                shape,
                point,
                c as int,
                row,
            ) by {
                if row < x {
                    assert(sparse::value_at(before, row) == input_coeff(shape, point, c as int, row));
                }
            }
            lemma_weight_step(point, (16 * (x - start) + c) as nat, 16);
            assert((16 * (x - start) + c) as nat + 16 == (16 * (x + 1 - start) + c) as nat);
        }
        weight = weight.mul(step);
        x = x + 1;
    }
    proof {
        assert forall|row: int| 0 <= row < poseidon_rows implies #[trigger] sparse::value_at(out@, row)
            == input_coeff(shape, point, c as int, row) by {
            if row >= x {
                sparse::lemma_value_unlisted(out@, row);
            }
        }
    }
    out
}

/// The sparse column of an output slot.
fn output_link_column(
    shape: LeanAirShape,
    sources: &Vec<Option<usize>>,
    l: usize,
    poseidon_rows: usize,
    weights: &Vec<EF>,
    Ghost(point): Ghost<EF>,
) -> (r: Vec<SparseCoeff>)
    requires
        l < 8,
        poseidon_rows >= shape.total_rows(),
        sources@.len() == n_links(shape),
        forall|n: int|
            0 <= n < sources@.len() ==> match #[trigger] sources@[n] {
                Some(y) => link_place(shape, n) == y && y < shape.total_rows(),
                None => link_place(shape, n) == -1,
            },
        weights@.len() == 17,
        forall|i: int| 0 <= i < 17 ==> #[trigger] weights@[i] == point.pow(i as nat),
    ensures
        sparse::lists(r@, poseidon_rows as int, |row: int| output_coeff(shape, point, l as int, row)),
{
    let mut terms: Vec<SparseCoeff> = Vec::new();
    let mut weight = weights[l];
    let step = weights[8];
    let mut n: usize = 0;
    let ghost z = EF::zero_spec();
    while n < sources.len()
        invariant
            l < 8,
            n <= sources@.len(),
            z == EF::zero_spec(),
            poseidon_rows >= shape.total_rows(),
            forall|n: int|
                0 <= n < sources@.len() ==> match #[trigger] sources@[n] {
                    Some(y) => link_place(shape, n) == y && y < shape.total_rows(),
                    None => link_place(shape, n) == -1,
                },
            weight == point.pow((8 * n + l) as nat),
            step == point.pow(8),
            sparse::rows_below(terms@, poseidon_rows as int),
            forall|row: int|
                0 <= row < poseidon_rows ==> #[trigger] sparse::value_at(terms@, row) == sums::sum(
                    n as nat,
                    |m: int|
                        if link_place(shape, m) == row {
                            point.pow((8 * m + l) as nat)
                        } else {
                            z
                        },
                ),
        decreases sources@.len() - n,
    {
        let ghost before = terms@;
        let ghost f = |row: int|
            |m: int|
                if link_place(shape, m) == row {
                    point.pow((8 * m + l) as nat)
                } else {
                    z
                };
        match sources[n] {
            Some(y) => {
                sparse::push_term(&mut terms, y, weight);
                proof {
                    assert forall|row: int| 0 <= row < poseidon_rows implies #[trigger] sparse::value_at(terms@, row)
                        == sums::sum((n + 1) as nat, f(row)) by {
                        assert(sparse::value_at(before, row) == sums::sum(n as nat, f(row)));
                        sums::lemma_sum_canonical(n as nat, f(row));
                        ext::lemma_add_zero(sums::sum(n as nat, f(row)));
                        sparse::lemma_value_push(before, SparseCoeff { row: y, coeff: weight }, row);
                    }
                }
            },
            None => {
                proof {
                    assert forall|row: int| 0 <= row < poseidon_rows implies #[trigger] sparse::value_at(terms@, row)
                        == sums::sum((n + 1) as nat, f(row)) by {
                        assert(sparse::value_at(before, row) == sums::sum(n as nat, f(row)));
                        sums::lemma_sum_canonical(n as nat, f(row));
                        ext::lemma_add_zero(sums::sum(n as nat, f(row)));
                    }
                }
            },
        }
        proof {
            lemma_weight_step(point, (8 * n + l) as nat, 8);
            assert((8 * n + l) as nat + 8 == (8 * (n + 1) + l) as nat);
        }
        weight = weight.mul(step);
        n = n + 1;
    }
    let ghost all = terms@;
    sparse::merge_sparse_coefficients(&mut terms, poseidon_rows);
    proof {
        assert forall|row: int| 0 <= row < poseidon_rows implies #[trigger] sparse::value_at(terms@, row)
            == output_coeff(shape, point, l as int, row) by {
            assert(sparse::value_at(all, row) == output_coeff(shape, point, l as int, row));
        }
    }
    terms
}

/// The sparse columns of the link claim.
pub fn link_sparse_coefficients(shape: LeanAirShape, poseidon_rows: usize, link_point: EF) -> (r: Vec<
    Vec<SparseCoeff>,
>)
    requires
        shape.valid(),
        shape.fits_rows(),
        poseidon_rows >= shape.total_rows(),
    ensures
        r@.len() == 24,
        forall|slot: int|
            0 <= slot < 24 ==> sparse::lists(
                (#[trigger] r@[slot])@,
                poseidon_rows as int,
                |row: int| link_coeff(shape, link_point, slot, row),
            ),
{
    proof {
        schedule::lemma_row_products_valid(shape);
    }
    let ranges = ScheduleRanges::new(shape);
    let sources = link_sources(shape, ranges);
    let weights = mle::powers(link_point, 17);
    let mut out: Vec<Vec<SparseCoeff>> = Vec::new();
    let mut c: usize = 0;
    while c < 16
        invariant
            shape.valid(),
            shape.fits_rows(),
            ranges.of_shape(shape),
            c <= 16,
            poseidon_rows >= shape.total_rows(),
            sources@.len() == n_links(shape),
            forall|n: int|
                0 <= n < sources@.len() ==> (#[trigger] sources@[n] is Some <==> links::link_source(
                    shape,
                    shape.systematic_start() + n / 2,
                    n % 2,
                ) is Some),
            weights@.len() == 17,
            forall|i: int| 0 <= i < 17 ==> #[trigger] weights@[i] == link_point.pow(i as nat),
            out@.len() == c,
            forall|slot: int|
                0 <= slot < c ==> sparse::lists(
                    (#[trigger] out@[slot])@,
                    poseidon_rows as int,
                    |row: int| link_coeff(shape, link_point, slot, row),
                ),
        decreases 16 - c,
    {
        let column = input_link_column(shape, ranges, &sources, c, poseidon_rows, &weights, Ghost(link_point));
        assert(sparse::lists(column@, poseidon_rows as int, |row: int| link_coeff(shape, link_point, c as int, row)));
        out.push(column);
        c = c + 1;
    }
    let mut l: usize = 0;
    while l < 8
        invariant
            l <= 8,
            poseidon_rows >= shape.total_rows(),
            sources@.len() == n_links(shape),
            forall|n: int|
                0 <= n < sources@.len() ==> match #[trigger] sources@[n] {
                    Some(y) => link_place(shape, n) == y && y < shape.total_rows(),
                    None => link_place(shape, n) == -1,
                },
            weights@.len() == 17,
            forall|i: int| 0 <= i < 17 ==> #[trigger] weights@[i] == link_point.pow(i as nat),
            out@.len() == 16 + l,
            forall|slot: int|
                0 <= slot < 16 + l ==> sparse::lists(
                    (#[trigger] out@[slot])@,
                    poseidon_rows as int,
                    |row: int| link_coeff(shape, link_point, slot, row),
                ),
        decreases 8 - l,
    {
        let column = output_link_column(shape, &sources, l, poseidon_rows, &weights, Ghost(link_point));
        assert(sparse::lists(
            column@,
            poseidon_rows as int,
            |row: int| link_coeff(shape, link_point, 16 + l as int, row),
        ));
        out.push(column);
        l = l + 1;
    }
    out
}

/// The base field element of a cell that input column `c` of step `chunk` of its hash holds; none
/// where the column holds the state.
pub open spec fn base_limb(c: int, chunk: int) -> Option<int> {
    if chunk == 0 {
        Some(c)
    } else if c >= 8 {
        Some(16 + (chunk - 1) * 8 + c - 8)
    } else {
        None
    }
}

/// The base field element of a cell that input column `input_offset` of step `chunk_idx` holds.
pub fn base_limb_for_input_slot(input_offset: usize, chunk_idx: usize) -> (r: Option<usize>)
    requires
        input_offset < 16,
        16 + chunk_idx * 8 <= usize::MAX,
    ensures
        match r {
            Some(b) => base_limb(input_offset as int, chunk_idx as int) == Some(b as int),
            None => base_limb(input_offset as int, chunk_idx as int) is None,
        },
{
    if chunk_idx == 0 {
        Some(input_offset)
    } else if input_offset >= 8 {
        Some(16 + (chunk_idx - 1) * 8 + (input_offset - 8))
    } else {
        None
    }
}

/// The weight of element `t` of row `row` in the parity claim: that of the row times that of the
/// element, with the sign of the half.
pub open spec fn term_weight(log_m: nat, alpha: EF, r: EF, row: int, t: int) -> EF {
    let w = alpha.pow(row as nat) * parity::parity_weight(log_m, r, t);
    if t % 2 == 0 {
        w
    } else {
        w.negate_spec()
    }
}

/// The coefficient of the parity claim at input column `c` of step `chunk` of the hash of a cell.
pub open spec fn cell_parity_coeff(
    shape: LeanAirShape,
    alpha: EF,
    r: EF,
    row: int,
    cell: int,
    chunk: int,
    c: int,
) -> EF {
    match base_limb(c, chunk) {
        Some(b) => term_weight(shape.log_m as nat, alpha, r, row, cell * shape.cell_len_ext + b / 5) * EF::basis_spec(
            b % 5,
        ),
        None => EF::zero_spec(),
    }
}

/// The coefficient of the parity claim of input column `c` at a row; zero below the rows of the
/// cells.
pub open spec fn parity_coeff(shape: LeanAirShape, alpha: EF, r: EF, c: int, row: int) -> EF {
    if row < shape.systematic_start() {
        let q: int = row / (shape.chunks() as int);
        cell_parity_coeff(
            shape,
            alpha,
            r,
            q / (shape.cells() as int),
            q % (shape.cells() as int),
            row % (shape.chunks() as int),
            c,
        )
    } else {
        EF::zero_spec()
    }
}

/// The sparse column of the parity claim in an input slot.
fn parity_column(
    shape: LeanAirShape,
    c: usize,
    poseidon_rows: usize,
    row_weights: &Vec<EF>,
    left: &Vec<EF>,
    right: &Vec<EF>,
    Ghost(alpha): Ghost<EF>,
    Ghost(r): Ghost<EF>,
) -> (out: Vec<SparseCoeff>)
    requires
        shape.valid(),
        shape.fits_rows(),
        c < 16,
        poseidon_rows >= shape.total_rows(),
        row_weights@.len() == shape.n_rows,
        forall|i: int| 0 <= i < shape.n_rows ==> #[trigger] row_weights@[i] == alpha.pow(i as nat),
        left@.len() == shape.message_len(),
        right@.len() == shape.message_len(),
        forall|j: int|
            0 <= j < shape.message_len() ==> #[trigger] left@[j] == parity::parity_weight(
                shape.log_m as nat,
                r,
                2 * j,
            ),
        forall|j: int|
            0 <= j < shape.message_len() ==> #[trigger] right@[j] == parity::parity_weight(
                shape.log_m as nat,
                r,
                2 * j + 1,
            ),
    ensures
        sparse::lists(out@, poseidon_rows as int, |row: int| parity_coeff(shape, alpha, r, c as int, row)),
{
    proof {
        schedule::lemma_row_products_valid(shape);
        links::lemma_starts(shape);
    }
    let ranges = ScheduleRanges::new(shape);
    let cells: usize = shape.num_cells();
    let chunks: usize = ranges.chunks_per_cell;
    let total: usize = ranges.systematic_row_start;
    let mut out: Vec<SparseCoeff> = Vec::new();
    let mut row: usize = 0;
    while row < total
        invariant
            shape.valid(),
            shape.fits_rows(),
            c < 16,
            cells == shape.cells(),
            chunks == shape.chunks(),
            total == shape.systematic_start(),
            row <= total,
            row_weights@.len() == shape.n_rows,
            forall|i: int| 0 <= i < shape.n_rows ==> #[trigger] row_weights@[i] == alpha.pow(i as nat),
            left@.len() == shape.message_len(),
            right@.len() == shape.message_len(),
            forall|j: int|
                0 <= j < shape.message_len() ==> #[trigger] left@[j] == parity::parity_weight(
                    shape.log_m as nat,
                    r,
                    2 * j,
                ),
            forall|j: int|
                0 <= j < shape.message_len() ==> #[trigger] right@[j] == parity::parity_weight(
                    shape.log_m as nat,
                    r,
                    2 * j + 1,
                ),
            sparse::strictly_sorted(out@),
            sparse::rows_below(out@, row as int),
            sparse::no_zeros(out@),
            forall|x: int|
                0 <= x < row ==> #[trigger] sparse::value_at(out@, x) == parity_coeff(shape, alpha, r, c as int, x),
        decreases total - row,
    {
        proof {
            let _ = shape::lemma_shape(shape);
            links::lemma_encode(row as int, (shape.n_rows * cells) as int, chunks as int);
        }
        let q: usize = row / chunks;
        let chunk: usize = row % chunks;
        proof {
            links::lemma_encode(q as int, shape.n_rows as int, cells as int);
        }
        let row_idx: usize = q / cells;
        let cell: usize = q % cells;
        let ghost value = parity_coeff(shape, alpha, r, c as int, row as int);
        proof {
            assert(shape.chunks() * 8 + 8 == shape.cell_base());
        }
        let coeff = match base_limb_for_input_slot(c, chunk) {
            None => EF::zero(),
            Some(b) => {
                proof {
                    // The element stands inside the cell, and its term inside the codeword.
                    assert(b < shape.cell_base());
                    assert(b / 5 < shape.cell_len_ext);
                    schedule::lemma_block_bound(
                        cell as int,
                        cells as int,
                        b as int / 5,
                        shape.cell_len_ext as int,
                    );
                }
                let t: usize = cell * shape.cell_len_ext + b / 5;
                let slice = if t % 2 == 0 {
                    left[t / 2]
                } else {
                    right[t / 2]
                };
                let w = row_weights[row_idx].mul(slice);
                let signed = if t % 2 == 0 {
                    w
                } else {
                    w.negate()
                };
                signed.mul(EF::basis(b % 5))
            },
        };
        assert(coeff == value);
        coeff.assert_canonical();
        let ghost before = out@;
        sparse::push_term(&mut out, row, coeff);
        proof {
            sparse::lemma_push_next(before, row, coeff);
            assert forall|x: int| 0 <= x < row + 1 implies #[trigger] sparse::value_at(out@, x) == parity_coeff(
                shape,
                alpha,
                r,
                c as int,
                x,
            ) by {
                if x < row {
                    assert(sparse::value_at(before, x) == parity_coeff(shape, alpha, r, c as int, x));
                }
            }
        }
        row = row + 1;
    }
    proof {
        assert forall|x: int| 0 <= x < poseidon_rows implies #[trigger] sparse::value_at(out@, x) == parity_coeff(
            shape,
            alpha,
            r,
            c as int,
            x,
        ) by {
            if x >= total {
                sparse::lemma_value_unlisted(out@, x);
            }
        }
    }
    out
}

/// The sparse columns of the parity claim; none where the point is not outside the domain.
pub fn parity_sparse_coefficients(
    shape: LeanAirShape,
    poseidon_rows: usize,
    row_coeff_alpha: EF,
    parity_point: EF,
) -> (r: Option<Vec<Vec<SparseCoeff>>>)
    requires
        shape.valid(),
        shape.fits_rows(),
        shape.log_m < TWO_ADICITY,
        poseidon_rows >= shape.total_rows(),
    ensures
        r is Some <==> parity::outside_domain(shape.log_m as nat, parity_point),
        r matches Some(columns) ==> columns@.len() == 16 && forall|c: int|
            0 <= c < 16 ==> sparse::lists(
                (#[trigger] columns@[c])@,
                poseidon_rows as int,
                |row: int| parity_coeff(shape, row_coeff_alpha, parity_point, c, row),
            ),
{
    proof {
        schedule::lemma_row_products_valid(shape);
    }
    let (left, right) = match parity::barycentric_slices(shape.log_m, parity_point) {
        Some(slices) => slices,
        None => {
            return None;
        },
    };
    let row_weights = mle::powers(row_coeff_alpha, shape.n_rows);
    let mut columns: Vec<Vec<SparseCoeff>> = Vec::new();
    let mut c: usize = 0;
    while c < 16
        invariant
            shape.valid(),
            shape.fits_rows(),
            c <= 16,
            poseidon_rows >= shape.total_rows(),
            row_weights@.len() == shape.n_rows,
            forall|i: int| 0 <= i < shape.n_rows ==> #[trigger] row_weights@[i] == row_coeff_alpha.pow(i as nat),
            left@.len() == shape.message_len(),
            right@.len() == shape.message_len(),
            forall|j: int|
                0 <= j < shape.message_len() ==> #[trigger] left@[j] == parity::parity_weight(
                    shape.log_m as nat,
                    parity_point,
                    2 * j,
                ),
            forall|j: int|
                0 <= j < shape.message_len() ==> #[trigger] right@[j] == parity::parity_weight(
                    shape.log_m as nat,
                    parity_point,
                    2 * j + 1,
                ),
            columns@.len() == c,
            forall|i: int|
                0 <= i < c ==> sparse::lists(
                    (#[trigger] columns@[i])@,
                    poseidon_rows as int,
                    |row: int| parity_coeff(shape, row_coeff_alpha, parity_point, i, row),
                ),
        decreases 16 - c,
    {
        let column = parity_column(
            shape,
            c,
            poseidon_rows,
            &row_weights,
            &left,
            &right,
            Ghost(row_coeff_alpha),
            Ghost(parity_point),
        );
        columns.push(column);
        c = c + 1;
    }
    Some(columns)
}

/// The number of the link between steps of cell hashes that has its source at a row.
pub open spec fn cell_link_index(shape: LeanAirShape, row: int) -> int {
    (row / (shape.chunks() as int)) * (shape.chunks() - 1) + row % (shape.chunks() as int)
}

/// The coefficient of the claim on the steps of cell hashes in a slot: eight output columns, with
/// the weight of the link from there, then eight input columns, with minus the weight of the link
/// to there.
pub open spec fn cell_link_coeff(shape: LeanAirShape, point: EF, slot: int, row: int) -> EF {
    let chunk: int = row % (shape.chunks() as int);
    if row >= shape.systematic_start() {
        EF::zero_spec()
    } else if slot < 8 {
        if chunk < shape.chunks() - 1 {
            point.pow((8 * cell_link_index(shape, row) + slot) as nat)
        } else {
            EF::zero_spec()
        }
    } else if chunk >= 1 {
        point.pow((8 * (cell_link_index(shape, row) - 1) + slot - 8) as nat).negate_spec()
    } else {
        EF::zero_spec()
    }
}

/// How the number of the next link grows from row to row.
pub proof fn lemma_cell_link_step(shape: LeanAirShape, row: int)
    requires
        shape.chunks() >= 2,
        0 <= row,
    ensures
        row % (shape.chunks() as int) < shape.chunks() - 1 ==> cell_link_index(shape, row + 1) == cell_link_index(
            shape,
            row,
        ) + 1 && (row + 1) % (shape.chunks() as int) == row % (shape.chunks() as int) + 1,
        row % (shape.chunks() as int) == shape.chunks() - 1 ==> cell_link_index(shape, row + 1) == cell_link_index(
            shape,
            row,
        ) && (row + 1) % (shape.chunks() as int) == 0,
        0 <= row % (shape.chunks() as int) < shape.chunks(),
        0 <= row % (shape.chunks() as int) <= cell_link_index(shape, row),
{
    let k: int = shape.chunks() as int;
    let q: int = row / k;
    let i: int = row % k;
    lemma_fundamental_div_mod(row, k);
    lemma_mod_bound(row, k);
    lemma_div_pos_is_pos(row, k);
    assert(q * (k - 1) >= 0) by (nonlinear_arith)
        requires
            q >= 0,
            k >= 1,
    ;
    if i < k - 1 {
        lemma_fundamental_div_mod_converse(row + 1, k, q, i + 1);
    } else {
        assert(row + 1 == k * (q + 1)) by (nonlinear_arith)
            requires
                row == k * q + (k - 1),
        ;
        lemma_fundamental_div_mod_converse(row + 1, k, q + 1, 0);
        assert((q + 1) * (k - 1) == q * (k - 1) + (k - 1)) by (nonlinear_arith);
    }
}

/// The dense column of the claim on the steps of cell hashes in a slot.
fn cell_link_column(
    shape: LeanAirShape,
    slot: usize,
    poseidon_rows: usize,
    weights: &Vec<EF>,
    Ghost(point): Ghost<EF>,
) -> (out: Vec<EF>)
    requires
        shape.valid(),
        shape.fits_rows(),
        slot < 16,
        weights@.len() == 9,
        forall|i: int| 0 <= i < 9 ==> #[trigger] weights@[i] == point.pow(i as nat),
    ensures
        out@.len() == poseidon_rows,
        forall|row: int|
            0 <= row < poseidon_rows ==> #[trigger] out@[row] == cell_link_coeff(shape, point, slot as int, row),
{
    proof {
        schedule::lemma_row_products_valid(shape);
        links::lemma_starts(shape);
    }
    let ranges = ScheduleRanges::new(shape);
    let chunks: usize = ranges.chunks_per_cell;
    let total: usize = ranges.systematic_row_start;
    let limb: usize = slot % 8;
    let step = weights[8];
    let mut weight = weights[limb];
    let mut out: Vec<EF> = Vec::new();
    let mut row: usize = 0;
    // The number of links used so far.
    let ghost mut used: int = 0;
    proof {
        lemma_small_mod(0, chunks as nat);
        lemma_basic_div(0, chunks as int);
        assert(cell_link_index(shape, 0) == 0);
    }
    while row < poseidon_rows
        invariant
            shape.chunks() >= 4,
            chunks == shape.chunks(),
            total == shape.systematic_start(),
            slot < 16,
            limb == slot % 8,
            step == point.pow(8),
            row <= poseidon_rows,
            0 <= used,
            weight == point.pow((8 * used + limb) as nat),
            slot < 8 && row <= total ==> used == cell_link_index(shape, row as int),
            slot >= 8 && row <= total ==> used == (if row as int % (chunks as int) == 0 {
                cell_link_index(shape, row as int)
            } else {
                cell_link_index(shape, row as int) - 1
            }),
            out@.len() == row,
            forall|x: int|
                0 <= x < row ==> #[trigger] out@[x] == cell_link_coeff(shape, point, slot as int, x),
        decreases poseidon_rows - row,
    {
        let chunk: usize = row % chunks;
        proof {
            lemma_cell_link_step(shape, row as int);
        }
        if row < total && (if slot < 8 {
            chunk < chunks - 1
        } else {
            chunk >= 1
        }) {
            if slot < 8 {
                out.push(weight);
            } else {
                out.push(weight.negate());
            }
            proof {
                lemma_weight_step(point, (8 * used + limb) as nat, 8);
                assert((8 * used + limb) as nat + 8 == (8 * (used + 1) + limb) as nat);
                used = used + 1;
            }
            weight = weight.mul(step);
        } else {
            out.push(EF::zero());
        }
        row = row + 1;
    }
    out
}

/// The dense columns of the claim on the steps of cell hashes.
pub fn cell_link_dense_coefficients(shape: LeanAirShape, poseidon_rows: usize, cell_link_point: EF) -> (r: Vec<Vec<EF>>)
    requires
        shape.valid(),
        shape.fits_rows(),
        poseidon_rows >= shape.total_rows(),
    ensures
        r@.len() == 16,
        forall|slot: int| 0 <= slot < 16 ==> (#[trigger] r@[slot])@.len() == poseidon_rows,
        forall|slot: int, row: int|
            0 <= slot < 16 && 0 <= row < poseidon_rows ==> #[trigger] r@[slot]@[row] == cell_link_coeff(
                shape,
                cell_link_point,
                slot,
                row,
            ),
{
    let weights = mle::powers(cell_link_point, 9);
    let mut out: Vec<Vec<EF>> = Vec::new();
    let mut slot: usize = 0;
    while slot < 16
        invariant
            shape.valid(),
            shape.fits_rows(),
            slot <= 16,
            weights@.len() == 9,
            forall|i: int| 0 <= i < 9 ==> #[trigger] weights@[i] == cell_link_point.pow(i as nat),
            out@.len() == slot,
            forall|s: int| 0 <= s < slot ==> (#[trigger] out@[s])@.len() == poseidon_rows,
            forall|s: int, row: int|
                0 <= s < slot && 0 <= row < poseidon_rows ==> #[trigger] out@[s]@[row] == cell_link_coeff(
                    shape,
                    cell_link_point,
                    s,
                    row,
                ),
        decreases 16 - slot,
    {
        let column = cell_link_column(shape, slot, poseidon_rows, &weights, Ghost(cell_link_point));
        out.push(column);
        slot = slot + 1;
    }
    out
}

} // verus!
