//! Where the table holds the coefficients of the codewords.
use super::coefficients;
use super::commit;
use super::links;
use super::schedule;
use super::schedule::ScheduleRanges;
use super::shape;
use super::shape::LeanAirShape;
use crate::ext::DIMENSION;
use crate::field::F;
use crate::hashing;
use crate::poseidon::{PoseidonConstants, DIGEST_LEN};
use vstd::arithmetic::div_mod::*;
use vstd::prelude::*;

verus! {

/// The hash row and the input column that hold coefficient `limb` of element `term` of codeword
/// `row`.
pub open spec fn limb_position(shape: LeanAirShape, row: int, term: int, limb: int) -> (int, int) {
    let cell: int = term / (shape.cell_len_ext as int);
    let b: int = (term % (shape.cell_len_ext as int)) * 5 + limb;
    let chunk: int = if b < 16 {
        0
    } else {
        1 + (b - 16) / 8
    };
    let column: int = if b < 16 {
        b
    } else {
        8 + (b - 16) % 8
    };
    (schedule::cell_row(shape, row, cell, chunk), column)
}

/// The element stands in a cell, and the coefficient in a step of the hash of the cell.
proof fn lemma_limb_bounds(shape: LeanAirShape, term: int, limb: int)
    requires
        shape.valid(),
        0 <= term < shape.codeword_len(),
        0 <= limb < 5,
    ensures
        ({
            let cell: int = term / (shape.cell_len_ext as int);
            let b: int = (term % (shape.cell_len_ext as int)) * 5 + limb;
            &&& 0 <= cell < shape.cells()
            &&& 0 <= b < shape.cell_base()
            &&& b >= 16 ==> 1 + (b - 16) / 8 < shape.chunks()
            &&& shape.chunks() >= 1
            &&& 5 * term + limb == cell * shape.cell_base() + b
        }),
{
    let _ = shape::lemma_shape(shape);
    let len: int = shape.cell_len_ext as int;
    lemma_fundamental_div_mod(term, len);
    lemma_mod_bound(term, len);
    lemma_div_pos_is_pos(term, len);
    let cell: int = term / len;
    let r: int = term % len;
    assert(cell < shape.cells()) by (nonlinear_arith)
        requires
            term == len * cell + r,
            0 <= r,
            term < shape.cells() * len,
            len > 0,
    ;
    assert(5 * term + limb == cell * (5 * len) + (r * 5 + limb)) by (nonlinear_arith)
        requires
            term == len * cell + r,
    ;
    assert(shape.cell_base() == 5 * len);
}

/// The hash row and the input column that hold a coefficient of an element of a codeword.
pub fn codeword_limb_position(shape: LeanAirShape, row_idx: usize, term_idx: usize, limb_idx: usize) -> (r: (
    usize,
    usize,
))
    requires
        shape.valid(),
        shape.fits_rows(),
        row_idx < shape.n_rows,
        term_idx < shape.codeword_len(),
        limb_idx < 5,
    ensures
        r.0 == limb_position(shape, row_idx as int, term_idx as int, limb_idx as int).0,
        r.1 == limb_position(shape, row_idx as int, term_idx as int, limb_idx as int).1,
        r.0 < shape.systematic_start(),
        r.1 < 16,
{
    proof {
        lemma_limb_bounds(shape, term_idx as int, limb_idx as int);
        let _ = shape::lemma_shape(shape);
        schedule::lemma_row_products_valid(shape);
    }
    let cell_idx: usize = term_idx / shape.cell_len_ext;
    let term_in_cell: usize = term_idx % shape.cell_len_ext;
    let limb_in_cell: usize = term_in_cell * DIMENSION + limb_idx;
    let (chunk_idx, input_offset): (usize, usize) = if limb_in_cell < 2 * DIGEST_LEN {
        (0, limb_in_cell)
    } else {
        let tail: usize = limb_in_cell - 2 * DIGEST_LEN;
        (1 + tail / DIGEST_LEN, DIGEST_LEN + tail % DIGEST_LEN)
    };
    let ranges = ScheduleRanges::new(shape);
    (ranges.cell_hash_row(shape, row_idx, cell_idx, chunk_idx), input_offset)
}

/// The position of a coefficient is the one at which the parity claim weighs it: the base field
/// element of the input column there is that coefficient of the cell.
pub proof fn law_position_is_weighed(shape: LeanAirShape, row: int, term: int, limb: int)
    requires
        shape.valid(),
        0 <= row < shape.n_rows,
        0 <= term < shape.codeword_len(),
        0 <= limb < 5,
    ensures
        ({
            let p = limb_position(shape, row, term, limb);
            &&& 0 <= p.0 < shape.systematic_start()
            &&& 0 <= p.1 < 16
            &&& coefficients::base_limb(p.1, p.0 % (shape.chunks() as int)) == Some(
                (term % (shape.cell_len_ext as int)) * 5 + limb,
            )
            &&& p.0 / (shape.chunks() as int) == row * shape.cells() + term / (shape.cell_len_ext as int)
        }),
{
    lemma_limb_bounds(shape, term, limb);
    let cell: int = term / (shape.cell_len_ext as int);
    let b: int = (term % (shape.cell_len_ext as int)) * 5 + limb;
    let chunk: int = if b < 16 {
        0
    } else {
        1 + (b - 16) / 8
    };
    schedule::lemma_cell_row_bound(shape, row, cell, chunk);
    commit::lemma_decode(row * shape.cells() + cell, chunk, shape.chunks() as int);
}

/// The table holds every coefficient of every codeword at its position.
pub proof fn law_position_holds_coefficient(
    k: PoseidonConstants,
    shape: LeanAirShape,
    data: Seq<Seq<F>>,
    row: int,
    term: int,
    limb: int,
)
    requires
        shape.valid(),
        links::full_rows(shape, data),
        0 <= row < shape.n_rows,
        0 <= term < shape.codeword_len(),
        0 <= limb < 5,
    ensures
        ({
            let p = limb_position(shape, row, term, limb);
            commit::row_input(k, shape, data, p.0)[p.1] == data[row][5 * term + limb]
        }),
{
    lemma_limb_bounds(shape, term, limb);
    let _ = shape::lemma_shape(shape);
    let cell: int = term / (shape.cell_len_ext as int);
    let b: int = (term % (shape.cell_len_ext as int)) * 5 + limb;
    let chunk: int = if b < 16 {
        0
    } else {
        1 + (b - 16) / 8
    };
    commit::lemma_input_cell(k, shape, data, row, cell, chunk);
    let whole = commit::cell_of(shape, data, row, cell);
    assert(cell * shape.cell_base() + shape.cell_base() <= 5 * shape.codeword_len()) by (nonlinear_arith)
        requires
            cell + 1 <= shape.cells(),
            shape.cell_base() == 5 * shape.cell_len_ext,
            shape.cells() * shape.cell_len_ext == shape.codeword_len(),
    ;
    assert(cell * shape.cell_base() >= 0) by (nonlinear_arith)
        requires
            cell >= 0,
    ;
    assert(whole.len() == shape.cell_base());
    assert(whole[b] == data[row][5 * term + limb]);
    if b >= 16 {
        hashing::lemma_compress_len(k, hashing::cell_input(k, whole, (chunk - 1) as nat));
        let input = hashing::cell_input(k, whole, chunk as nat);
        assert(input == crate::poseidon::compress_spec(k, hashing::cell_input(k, whole, (chunk - 1) as nat))
            + whole.subrange(8 + 8 * chunk, 16 + 8 * chunk));
    }
}

} // verus!
