//! How the inputs of hash rows follow from the outputs of others.
use super::commit;
use super::schedule;
use super::schedule::ScheduleRanges;
use super::shape;
use super::shape::LeanAirShape;
use crate::arith;
use crate::field::F;
use crate::hashing;
use crate::poseidon;
use crate::poseidon::PoseidonConstants;
use vstd::arithmetic::div_mod::*;
use vstd::arithmetic::mul::*;
use vstd::arithmetic::power2::*;
use vstd::prelude::*;

verus! {

/// The row whose output is the root of the tree over column `cell`; the digest of the only cell
/// where the tree has one leaf.
pub open spec fn column_source(shape: LeanAirShape, cell: int) -> int {
    if shape.padded() == 1 {
        schedule::cell_digest_row_spec(shape, 0, cell)
    } else {
        schedule::merkle_row(shape, cell, shape.padded() - 2)
    }
}

/// The row whose output is half `side` of the input of row `x`, for the rows after those of the
/// cells; none where that half is zero.
pub open spec fn link_source(shape: LeanAirShape, x: int, side: int) -> Option<int> {
    if x < shape.row_root_start() {
        let l: int = x - shape.systematic_start();
        let sys: int = shape.systematic_cells() as int;
        if side == 1 {
            Some(schedule::cell_digest_row_spec(shape, l / sys, l % sys))
        } else if l % sys == 0 {
            None
        } else {
            Some(x - 1)
        }
    } else if x < shape.column_merkle_start() {
        let row: int = x - shape.row_root_start();
        if side == 1 {
            Some(schedule::systematic_row(shape, row, shape.systematic_cells() - 1))
        } else if row == 0 {
            None
        } else {
            Some(x - 1)
        }
    } else if x < shape.column_root_start() {
        let l: int = x - shape.column_merkle_start();
        let w: int = shape.padded() - 1;
        let e: int = 2 * (l % w) + side;
        if e >= shape.padded() {
            Some(schedule::merkle_row(shape, l / w, e - shape.padded()))
        } else if e < shape.n_rows {
            Some(schedule::cell_digest_row_spec(shape, e, l / w))
        } else {
            None
        }
    } else if x < shape.final_row() {
        let e: int = 2 * (x - shape.column_root_start()) + side;
        if e >= shape.cells() {
            Some(schedule::root_row(shape, e - shape.cells()))
        } else {
            Some(column_source(shape, e))
        }
    } else if side == 0 {
        Some(schedule::row_root_row_spec(shape, shape.n_rows - 1))
    } else {
        Some(schedule::root_row(shape, shape.cells() - 2))
    }
}

/// Half `side` of an input.
pub open spec fn half(input: Seq<F>, side: int) -> Seq<F> {
    input.subrange(8 * side, 8 * side + 8)
}

pub proof fn lemma_pair_halves(a: Seq<F>, b: Seq<F>)
    requires
        a.len() == 8,
        b.len() == 8,
    ensures
        half(a + b, 0) == a,
        half(a + b, 1) == b,
{
    assert(half(a + b, 0) =~= a);
    assert(half(a + b, 1) =~= b);
}

pub proof fn lemma_chain_state_len(k: PoseidonConstants, ds: Seq<Seq<F>>, j: nat)
    ensures
        hashing::chain_state(k, ds, j).len() == 8,
{
    if j > 0 {
        hashing::lemma_compress_len(k, hashing::chain_state(k, ds, (j - 1) as nat) + ds[j - 1]);
    }
}

pub proof fn lemma_tree_entry_len(k: PoseidonConstants, leaves: Seq<Seq<F>>, i: nat)
    requires
        forall|m: int| 0 <= m < leaves.len() ==> (#[trigger] leaves[m]).len() == 8,
        i + 1 < 2 * leaves.len(),
    ensures
        hashing::tree_entry(k, leaves, i).len() == 8,
{
    if i >= leaves.len() {
        let t: nat = (i - leaves.len()) as nat;
        hashing::lemma_compress_len(
            k,
            hashing::tree_entry(k, leaves, 2 * t) + hashing::tree_entry(k, leaves, 2 * t + 1),
        );
    }
}

pub proof fn lemma_digest_len(k: PoseidonConstants, shape: LeanAirShape, data: Seq<Seq<F>>, row: int, cell: int)
    ensures
        commit::digest_of(k, shape, data, row, cell).len() == 8,
{
    let c = commit::cell_of(shape, data, row, cell);
    hashing::lemma_compress_len(k, hashing::cell_input(k, c, (hashing::cell_steps(c.len()) - 1) as nat));
}

/// The digest of a cell is the output of the last of its rows.
proof fn lemma_cell_digest_output(
    k: PoseidonConstants,
    shape: LeanAirShape,
    data: Seq<Seq<F>>,
    row: int,
    cell: int,
)
    requires
        shape.valid(),
        0 <= row < shape.n_rows,
        0 <= cell < shape.cells(),
        data[row].len() == 5 * shape.codeword_len(),
    ensures
        commit::digest_of(k, shape, data, row, cell) == poseidon::compress_spec(
            k,
            commit::row_input(k, shape, data, schedule::cell_digest_row_spec(shape, row, cell)),
        ),
{
    let _ = shape::lemma_shape(shape);
    let base: int = shape.cell_base() as int;
    commit::lemma_input_cell(k, shape, data, row, cell, shape.chunks() - 1);
    assert(0 <= cell * base && cell * base + base <= 5 * shape.codeword_len()) by (nonlinear_arith)
        requires
            0 <= cell,
            cell + 1 <= shape.cells(),
            base == 5 * shape.cell_len_ext,
            shape.cells() * shape.cell_len_ext == shape.codeword_len(),
    ;
    assert(commit::cell_of(shape, data, row, cell).len() == base);
}

/// The rows of data, each with a whole codeword.
pub open spec fn full_rows(shape: LeanAirShape, data: Seq<Seq<F>>) -> bool {
    &&& data.len() == shape.n_rows
    &&& forall|r: int| 0 <= r < shape.n_rows ==> (#[trigger] data[r]).len() == 5 * shape.codeword_len()
}

/// Every half of the input of a row after those of the cells is the output of its source, or zero
/// where it has none; sources stand above the row.
pub proof fn law_inputs_follow_from_outputs(
    k: PoseidonConstants,
    shape: LeanAirShape,
    data: Seq<Seq<F>>,
    x: int,
    side: int,
)
    requires
        shape.valid(),
        full_rows(shape, data),
        shape.systematic_start() <= x < shape.total_rows(),
        0 <= side < 2,
    ensures
        match link_source(shape, x, side) {
            Some(y) => 0 <= y < x && half(commit::row_input(k, shape, data, x), side) == poseidon::compress_spec(
                k,
                commit::row_input(k, shape, data, y),
            ),
            None => half(commit::row_input(k, shape, data, x), side) == hashing::zero_digest(),
        },
{
    let b = shape::lemma_shape(shape);
    lemma_starts(shape);
    if x < shape.row_root_start() {
        lemma_source_systematic(k, shape, data, x, side);
    } else if x < shape.column_merkle_start() {
        lemma_source_row_root(k, shape, data, x, side);
    } else if x < shape.column_root_start() {
        lemma_source_merkle(k, shape, data, x, side);
    } else if x < shape.final_row() {
        lemma_source_column_root(k, shape, data, x, side);
    } else {
        lemma_source_final(k, shape, data, side);
    }
}

/// The parts of the table follow one another.
pub proof fn lemma_starts(shape: LeanAirShape)
    requires
        shape.valid(),
    ensures
        0 <= shape.systematic_start() <= shape.row_root_start() <= shape.column_merkle_start()
            <= shape.column_root_start() <= shape.final_row(),
        shape.systematic_start() < shape.row_root_start(),
        shape.row_root_start() < shape.column_merkle_start(),
        shape.row_root_start() == shape.systematic_start() + shape.n_rows * shape.systematic_cells(),
        shape.column_root_start() == shape.column_merkle_start() + shape.cells() * (shape.padded() - 1),
{
    let _ = shape::lemma_shape(shape);
    assert(shape.n_rows * shape.systematic_cells() >= 1) by (nonlinear_arith)
        requires
            shape.n_rows >= 1,
            shape.systematic_cells() >= 1,
    ;
    assert(shape.cells() * ((shape.padded() - 1) as nat) >= 0) by (nonlinear_arith);
}

/// `l` as `q * w + i`.
pub proof fn lemma_encode(l: int, n: int, w: int)
    requires
        0 <= l < n * w,
        0 < w,
    ensures
        0 <= l / w < n,
        0 <= l % w < w,
        l == (l / w) * w + l % w,
{
    lemma_fundamental_div_mod(l, w);
    lemma_mul_is_commutative(w, l / w);
    lemma_div_pos_is_pos(l, w);
    assert(l / w < n) by (nonlinear_arith)
        requires
            w * (l / w) <= l < n * w,
            0 < w,
    ;
}

proof fn lemma_source_systematic(k: PoseidonConstants, shape: LeanAirShape, data: Seq<Seq<F>>, x: int, side: int)
    requires
        shape.valid(),
        full_rows(shape, data),
        shape.systematic_start() <= x < shape.row_root_start(),
        0 <= side < 2,
    ensures
        match link_source(shape, x, side) {
            Some(y) => 0 <= y < x && half(commit::row_input(k, shape, data, x), side) == poseidon::compress_spec(
                k,
                commit::row_input(k, shape, data, y),
            ),
            None => half(commit::row_input(k, shape, data, x), side) == hashing::zero_digest(),
        },
{
    let _ = shape::lemma_shape(shape);
    lemma_starts(shape);
    let sys: int = shape.systematic_cells() as int;
    let l: int = x - shape.systematic_start();
    lemma_encode(l, shape.n_rows as int, sys);
    let row: int = l / sys;
    let cell: int = l % sys;
    let ds = commit::systematic_digests(k, shape, data, row);
    commit::lemma_input_systematic(k, shape, data, row, cell);
    lemma_chain_state_len(k, ds, cell as nat);
    lemma_digest_len(k, shape, data, row, cell);
    lemma_pair_halves(hashing::chain_state(k, ds, cell as nat), ds[cell]);
    if side == 1 {
        lemma_cell_digest_output(k, shape, data, row, cell);
        schedule::lemma_cell_row_bound(shape, row, cell, shape.chunks() - 1);
    } else if cell > 0 {
        commit::lemma_input_systematic(k, shape, data, row, cell - 1);
        assert(schedule::systematic_row(shape, row, cell - 1) == x - 1);
        assert((cell as nat - 1) as nat == (cell - 1) as nat);
    }
}

proof fn lemma_source_row_root(k: PoseidonConstants, shape: LeanAirShape, data: Seq<Seq<F>>, x: int, side: int)
    requires
        shape.valid(),
        full_rows(shape, data),
        shape.row_root_start() <= x < shape.column_merkle_start(),
        0 <= side < 2,
    ensures
        match link_source(shape, x, side) {
            Some(y) => 0 <= y < x && half(commit::row_input(k, shape, data, x), side) == poseidon::compress_spec(
                k,
                commit::row_input(k, shape, data, y),
            ),
            None => half(commit::row_input(k, shape, data, x), side) == hashing::zero_digest(),
        },
{
    let _ = shape::lemma_shape(shape);
    lemma_starts(shape);
    let sys: int = shape.systematic_cells() as int;
    let row: int = x - shape.row_root_start();
    let ds = commit::row_digest_list(k, shape, data);
    let rd = commit::systematic_digests(k, shape, data, row);
    commit::lemma_input_row_root(k, shape, data, row);
    lemma_chain_state_len(k, ds, row as nat);
    lemma_chain_state_len(k, rd, rd.len());
    lemma_pair_halves(hashing::chain_state(k, ds, row as nat), ds[row]);
    if side == 1 {
        commit::lemma_input_systematic(k, shape, data, row, sys - 1);
        schedule::lemma_block_bound(row, shape.n_rows as int, sys - 1, sys);
        assert(ds[row] == hashing::chain_state(k, rd, sys as nat));
        assert((sys as nat - 1) as nat == (sys - 1) as nat);
    } else if row > 0 {
        commit::lemma_input_row_root(k, shape, data, row - 1);
        assert((row as nat - 1) as nat == (row - 1) as nat);
    }
}

proof fn lemma_source_merkle(k: PoseidonConstants, shape: LeanAirShape, data: Seq<Seq<F>>, x: int, side: int)
    requires
        shape.valid(),
        full_rows(shape, data),
        shape.column_merkle_start() <= x < shape.column_root_start(),
        0 <= side < 2,
    ensures
        match link_source(shape, x, side) {
            Some(y) => 0 <= y < x && half(commit::row_input(k, shape, data, x), side) == poseidon::compress_spec(
                k,
                commit::row_input(k, shape, data, y),
            ),
            None => half(commit::row_input(k, shape, data, x), side) == hashing::zero_digest(),
        },
{
    let _ = shape::lemma_shape(shape);
    lemma_starts(shape);
    let w: int = shape.padded() - 1;
    let l: int = x - shape.column_merkle_start();
    if w == 0 {
        assert(shape.cells() * w == 0) by (nonlinear_arith)
            requires
                w == 0,
        ;
    }
    lemma_encode(l, shape.cells() as int, w);
    let cell: int = l / w;
    let t: int = l % w;
    let e: int = 2 * t + side;
    let leaves = commit::column_leaves(k, shape, data, cell);
    commit::lemma_input_merkle(k, shape, data, cell, t);
    assert forall|m: int| 0 <= m < leaves.len() implies (#[trigger] leaves[m]).len() == 8 by {
        lemma_digest_len(k, shape, data, m, cell);
    }
    lemma_tree_entry_len(k, leaves, (2 * t) as nat);
    lemma_tree_entry_len(k, leaves, (2 * t + 1) as nat);
    lemma_pair_halves(
        hashing::tree_entry(k, leaves, (2 * t) as nat),
        hashing::tree_entry(k, leaves, (2 * t + 1) as nat),
    );
    assert(half(commit::row_input(k, shape, data, x), side) == hashing::tree_entry(k, leaves, e as nat));
    if e >= shape.padded() {
        let u: int = e - shape.padded();
        commit::lemma_input_merkle(k, shape, data, cell, u);
        assert(u < t);
        schedule::lemma_block_bound(cell, shape.cells() as int, u, w);
    } else if e < shape.n_rows {
        lemma_cell_digest_output(k, shape, data, e, cell);
        schedule::lemma_cell_row_bound(shape, e, cell, shape.chunks() - 1);
    }
}

/// The root of a column is the output of its source.
pub proof fn lemma_column_source(k: PoseidonConstants, shape: LeanAirShape, data: Seq<Seq<F>>, cell: int)
    requires
        shape.valid(),
        full_rows(shape, data),
        0 <= cell < shape.cells(),
    ensures
        0 <= column_source(shape, cell) < shape.column_root_start(),
        hashing::tree_root(k, commit::column_leaves(k, shape, data, cell)) == poseidon::compress_spec(
            k,
            commit::row_input(k, shape, data, column_source(shape, cell)),
        ),
        hashing::tree_root(k, commit::column_leaves(k, shape, data, cell)).len() == 8,
{
    let _ = shape::lemma_shape(shape);
    lemma_starts(shape);
    let leaves = commit::column_leaves(k, shape, data, cell);
    let p: int = shape.padded() as int;
    if p == 1 {
        lemma_cell_digest_output(k, shape, data, 0, cell);
        lemma_digest_len(k, shape, data, 0, cell);
        schedule::lemma_cell_row_bound(shape, 0, cell, shape.chunks() - 1);
    } else {
        commit::lemma_input_merkle(k, shape, data, cell, p - 2);
        schedule::lemma_block_bound(cell, shape.cells() as int, p - 2, p - 1);
        hashing::lemma_compress_len(k, hashing::tree_input(k, leaves, (p - 2) as nat));
    }
}

proof fn lemma_source_column_root(k: PoseidonConstants, shape: LeanAirShape, data: Seq<Seq<F>>, x: int, side: int)
    requires
        shape.valid(),
        full_rows(shape, data),
        shape.column_root_start() <= x < shape.final_row(),
        0 <= side < 2,
    ensures
        match link_source(shape, x, side) {
            Some(y) => 0 <= y < x && half(commit::row_input(k, shape, data, x), side) == poseidon::compress_spec(
                k,
                commit::row_input(k, shape, data, y),
            ),
            None => half(commit::row_input(k, shape, data, x), side) == hashing::zero_digest(),
        },
{
    let _ = shape::lemma_shape(shape);
    lemma_starts(shape);
    let t: int = x - shape.column_root_start();
    let e: int = 2 * t + side;
    let c: int = shape.cells() as int;
    let leaves = commit::column_root_list(k, shape, data);
    commit::lemma_input_column_root(k, shape, data, t);
    assert forall|m: int| 0 <= m < leaves.len() implies (#[trigger] leaves[m]).len() == 8 by {
        lemma_column_source(k, shape, data, m);
    }
    lemma_tree_entry_len(k, leaves, (2 * t) as nat);
    lemma_tree_entry_len(k, leaves, (2 * t + 1) as nat);
    lemma_pair_halves(
        hashing::tree_entry(k, leaves, (2 * t) as nat),
        hashing::tree_entry(k, leaves, (2 * t + 1) as nat),
    );
    assert(half(commit::row_input(k, shape, data, x), side) == hashing::tree_entry(k, leaves, e as nat));
    if e >= c {
        commit::lemma_input_column_root(k, shape, data, e - c);
    } else {
        lemma_column_source(k, shape, data, e);
    }
}

proof fn lemma_source_final(k: PoseidonConstants, shape: LeanAirShape, data: Seq<Seq<F>>, side: int)
    requires
        shape.valid(),
        full_rows(shape, data),
        0 <= side < 2,
    ensures
        match link_source(shape, shape.final_row(), side) {
            Some(y) => 0 <= y < shape.final_row() && half(
                commit::row_input(k, shape, data, shape.final_row()),
                side,
            ) == poseidon::compress_spec(k, commit::row_input(k, shape, data, y)),
            None => half(commit::row_input(k, shape, data, shape.final_row()), side) == hashing::zero_digest(),
        },
{
    let _ = shape::lemma_shape(shape);
    lemma_starts(shape);
    let n: int = shape.n_rows as int;
    let c: int = shape.cells() as int;
    let ds = commit::row_digest_list(k, shape, data);
    let leaves = commit::column_root_list(k, shape, data);
    commit::lemma_input_final(k, shape, data);
    lemma_chain_state_len(k, ds, ds.len());
    hashing::lemma_compress_len(k, hashing::tree_input(k, leaves, (c - 2) as nat));
    lemma_pair_halves(commit::row_root_spec(k, shape, data), commit::column_root_spec(k, shape, data));
    commit::lemma_input_row_root(k, shape, data, n - 1);
    commit::lemma_input_column_root(k, shape, data, c - 2);
    assert((n as nat - 1) as nat == (n - 1) as nat);
    assert((2 * c - 2) as nat - leaves.len() == c - 2);
}

/// The row whose output is the root of the tree over column `cell_idx`.
pub fn column_root_source_row(shape: LeanAirShape, ranges: ScheduleRanges, cell_idx: usize) -> (r: usize)
    requires
        shape.valid(),
        shape.fits_rows(),
        ranges.of_shape(shape),
        cell_idx < shape.cells(),
    ensures
        r == column_source(shape, cell_idx as int),
        r < shape.column_root_start(),
{
    proof {
        let _ = shape::lemma_shape(shape);
        schedule::lemma_row_products(shape);
        lemma_starts(shape);
    }
    let padded: usize = shape.padded_rows();
    if padded == 1 {
        ranges.cell_digest_row(shape, 0, cell_idx)
    } else {
        let layers: usize = arith::log2_strict(padded);
        proof {
            let k: nat = layers as nat;
            lemma2_to64();
            if k == 0 {
                assert(false);
            }
            lemma_pow2_subtracts(k, k);
            lemma_pow2_subtracts((k - 1) as nat, k);
            assert((k - (k - 1)) as nat == 1);
            assert((k - k) as nat == 0);
            schedule::lemma_tree_node_bound(k, (k - 1) as nat, 0);
        }
        ranges.column_merkle_row(shape, cell_idx, layers - 1, 0)
    }
}

/// The row whose output is the root of the tree over the columns.
pub fn column_commitment_source_row(shape: LeanAirShape, ranges: ScheduleRanges) -> (r: usize)
    requires
        shape.valid(),
        shape.fits_rows(),
        ranges.of_shape(shape),
    ensures
        r == schedule::root_row(shape, shape.cells() - 2),
        r < shape.final_row(),
{
    proof {
        schedule::lemma_row_products_valid(shape);
    }
    let cells: usize = shape.num_cells();
    let layers: usize = arith::log2_strict(cells);
    proof {
        let k: nat = layers as nat;
        lemma2_to64();
        if k == 0 {
            assert(false);
        }
        lemma_pow2_subtracts(k, k);
        lemma_pow2_subtracts((k - 1) as nat, k);
        assert((k - (k - 1)) as nat == 1);
        assert((k - k) as nat == 0);
        schedule::lemma_tree_node_bound(k, (k - 1) as nat, 0);
    }
    ranges.column_root_row(shape, layers - 1, 0)
}

/// The row whose output is half `side` of the input of row `x`.
pub fn source_row(shape: LeanAirShape, ranges: ScheduleRanges, x: usize, side: usize) -> (r: Option<usize>)
    requires
        shape.valid(),
        shape.fits_rows(),
        ranges.of_shape(shape),
        shape.systematic_start() <= x < shape.total_rows(),
        side < 2,
    ensures
        match r {
            Some(y) => link_source(shape, x as int, side as int) == Some(y as int) && y < x,
            None => link_source(shape, x as int, side as int) is None,
        },
{
    proof {
        schedule::lemma_row_products_valid(shape);
        lemma_starts(shape);
    }
    let sys: usize = shape.num_systematic_cells();
    let padded: usize = shape.padded_rows();
    let cells: usize = shape.num_cells();
    if x < ranges.row_root_start {
        let l: usize = x - ranges.systematic_row_start;
        proof {
            lemma_encode(l as int, shape.n_rows as int, sys as int);
        }
        if side == 1 {
            Some(ranges.cell_digest_row(shape, l / sys, l % sys))
        } else if l % sys == 0 {
            None
        } else {
            Some(x - 1)
        }
    } else if x < ranges.column_merkle_start {
        let row: usize = x - ranges.row_root_start;
        if side == 1 {
            Some(ranges.systematic_row_digest_row(shape, row, sys - 1))
        } else if row == 0 {
            None
        } else {
            Some(x - 1)
        }
    } else if x < ranges.column_root_start {
        let w: usize = padded - 1;
        let l: usize = x - ranges.column_merkle_start;
        proof {
            if w == 0 {
                assert(shape.cells() * w == 0) by (nonlinear_arith)
                    requires
                        w == 0,
                ;
            }
            lemma_encode(l as int, cells as int, w as int);
            assert(2 * w <= cells * w) by (nonlinear_arith)
                requires
                    cells >= 2,
                    w >= 0,
            ;
        }
        let e: usize = 2 * (l % w) + side;
        if e >= padded {
            proof {
                schedule::lemma_block_bound((l / w) as int, cells as int, e - padded, w as int);
            }
            Some(ranges.column_merkle_start + (l / w) * w + (e - padded))
        } else if e < shape.n_rows {
            Some(ranges.cell_digest_row(shape, e, l / w))
        } else {
            None
        }
    } else if x < ranges.final_root_row {
        let e: usize = 2 * (x - ranges.column_root_start) + side;
        if e >= cells {
            Some(ranges.column_root_start + (e - cells))
        } else {
            Some(column_root_source_row(shape, ranges, e))
        }
    } else if side == 0 {
        Some(ranges.row_root_row(shape.n_rows - 1))
    } else {
        Some(column_commitment_source_row(shape, ranges))
    }
}

} // verus!
