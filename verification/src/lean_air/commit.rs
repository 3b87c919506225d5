//! The commitment to the rows of cells, and the hash rows of its compressions.
use super::schedule;
use super::shape::LeanAirShape;
use crate::field::F;
use crate::hashing;
use crate::poseidon;
use crate::poseidon::{DedicatedPoseidonCols, PoseidonConstants};
use vstd::arithmetic::div_mod::*;
use vstd::prelude::*;

verus! {

/// The digests that commit to the data.
#[derive(Clone, Debug, PartialEq, Eq)]
pub struct LeanAirCommitments {
    pub row_commitment_root: [F; 8],
    pub column_commitment_root: [F; 8],
    pub commitment_root: [F; 8],
    pub row_digests: Vec<[F; 8]>,
    pub column_roots: Vec<[F; 8]>,
}

/// Cell `cell` of row `row`.
pub open spec fn cell_of(shape: LeanAirShape, data: Seq<Seq<F>>, row: int, cell: int) -> Seq<F> {
    data[row].subrange(cell * shape.cell_base(), cell * shape.cell_base() + shape.cell_base())
}

/// The digest of a cell.
pub open spec fn digest_of(k: PoseidonConstants, shape: LeanAirShape, data: Seq<Seq<F>>, row: int, cell: int) -> Seq<
    F,
> {
    hashing::cell_digest(k, cell_of(shape, data, row, cell))
}

/// The digests of the cells of the first half of a row.
pub open spec fn systematic_digests(k: PoseidonConstants, shape: LeanAirShape, data: Seq<Seq<F>>, row: int) -> Seq<
    Seq<F>,
> {
    Seq::new(shape.systematic_cells(), |cell: int| digest_of(k, shape, data, row, cell))
}

/// The digests of the rows: each the chain over the digests of its first half.
pub open spec fn row_digest_list(k: PoseidonConstants, shape: LeanAirShape, data: Seq<Seq<F>>) -> Seq<Seq<F>> {
    Seq::new(
        shape.n_rows as nat,
        |row: int| hashing::chain_digest(k, systematic_digests(k, shape, data, row)),
    )
}

/// The leaves of the tree over a column of cells: its digests, then zeros.
pub open spec fn column_leaves(k: PoseidonConstants, shape: LeanAirShape, data: Seq<Seq<F>>, cell: int) -> Seq<
    Seq<F>,
> {
    Seq::new(
        shape.padded(),
        |row: int|
            if row < shape.n_rows {
                digest_of(k, shape, data, row, cell)
            } else {
                hashing::zero_digest()
            },
    )
}

/// The roots of the columns.
pub open spec fn column_root_list(k: PoseidonConstants, shape: LeanAirShape, data: Seq<Seq<F>>) -> Seq<Seq<F>> {
    Seq::new(shape.cells(), |cell: int| hashing::tree_root(k, column_leaves(k, shape, data, cell)))
}

/// The chain over the row digests.
pub open spec fn row_root_spec(k: PoseidonConstants, shape: LeanAirShape, data: Seq<Seq<F>>) -> Seq<F> {
    hashing::chain_digest(k, row_digest_list(k, shape, data))
}

/// The tree over the column roots.
pub open spec fn column_root_spec(k: PoseidonConstants, shape: LeanAirShape, data: Seq<Seq<F>>) -> Seq<F> {
    hashing::tree_root(k, column_root_list(k, shape, data))
}

/// The commitment to the data.
pub open spec fn commitment_spec(k: PoseidonConstants, shape: LeanAirShape, data: Seq<Seq<F>>) -> Seq<F> {
    poseidon::compress_spec(k, row_root_spec(k, shape, data) + column_root_spec(k, shape, data))
}

/// The input of the compression of hash row `idx`.
pub open spec fn row_input(k: PoseidonConstants, shape: LeanAirShape, data: Seq<Seq<F>>, idx: int) -> Seq<F> {
    if idx < shape.systematic_start() {
        let q: int = idx / (shape.chunks() as int);
        hashing::cell_input(
            k,
            cell_of(shape, data, q / (shape.cells() as int), q % (shape.cells() as int)),
            (idx % (shape.chunks() as int)) as nat,
        )
    } else if idx < shape.row_root_start() {
        let l: int = idx - shape.systematic_start();
        let sys: int = shape.systematic_cells() as int;
        hashing::chain_input(k, systematic_digests(k, shape, data, l / sys), (l % sys) as nat)
    } else if idx < shape.column_merkle_start() {
        hashing::chain_input(k, row_digest_list(k, shape, data), (idx - shape.row_root_start()) as nat)
    } else if idx < shape.column_root_start() {
        let l: int = idx - shape.column_merkle_start();
        let w: int = shape.padded() - 1;
        hashing::tree_input(k, column_leaves(k, shape, data, l / w), (l % w) as nat)
    } else if idx < shape.final_row() {
        hashing::tree_input(k, column_root_list(k, shape, data), (idx - shape.column_root_start()) as nat)
    } else {
        row_root_spec(k, shape, data) + column_root_spec(k, shape, data)
    }
}

impl LeanAirCommitments {
    /// Whether these are the digests of the data.
    pub open spec fn commits(self, k: PoseidonConstants, shape: LeanAirShape, data: Seq<Seq<F>>) -> bool {
        &&& hashing::digest_views(self.row_digests@) == row_digest_list(k, shape, data)
        &&& hashing::digest_views(self.column_roots@) == column_root_list(k, shape, data)
        &&& self.row_commitment_root@ == row_root_spec(k, shape, data)
        &&& self.column_commitment_root@ == column_root_spec(k, shape, data)
        &&& self.commitment_root@ == commitment_spec(k, shape, data)
    }
}

/// `q * w + i` taken apart.
pub proof fn lemma_decode(q: int, i: int, w: int)
    requires
        0 <= i < w,
    ensures
        (q * w + i) / w == q,
        (q * w + i) % w == i,
{
    lemma_fundamental_div_mod_converse(q * w + i, w, q, i);
}

/// The inputs of the rows of a cell.
pub proof fn lemma_input_cell(k: PoseidonConstants, shape: LeanAirShape, data: Seq<Seq<F>>, row: int, cell: int, j: int)
    requires
        0 <= row < shape.n_rows,
        0 <= cell < shape.cells(),
        0 <= j < shape.chunks(),
    ensures
        row_input(k, shape, data, schedule::cell_row(shape, row, cell, j)) == hashing::cell_input(
            k,
            cell_of(shape, data, row, cell),
            j as nat,
        ),
{
    schedule::lemma_cell_row_bound(shape, row, cell, j);
    lemma_decode(row * shape.cells() + cell, j, shape.chunks() as int);
    lemma_decode(row, cell, shape.cells() as int);
}

/// The inputs of the rows of the chain over a row's cells.
pub proof fn lemma_input_systematic(
    k: PoseidonConstants,
    shape: LeanAirShape,
    data: Seq<Seq<F>>,
    row: int,
    cell: int,
)
    requires
        0 <= row < shape.n_rows,
        0 <= cell < shape.systematic_cells(),
    ensures
        row_input(k, shape, data, schedule::systematic_row(shape, row, cell)) == hashing::chain_input(
            k,
            systematic_digests(k, shape, data, row),
            cell as nat,
        ),
{
    schedule::lemma_block_bound(row, shape.n_rows as int, cell, shape.systematic_cells() as int);
    lemma_decode(row, cell, shape.systematic_cells() as int);
}

/// The inputs of the rows of the chain over the rows.
pub proof fn lemma_input_row_root(k: PoseidonConstants, shape: LeanAirShape, data: Seq<Seq<F>>, row: int)
    requires
        0 <= row < shape.n_rows,
    ensures
        row_input(k, shape, data, schedule::row_root_row_spec(shape, row)) == hashing::chain_input(
            k,
            row_digest_list(k, shape, data),
            row as nat,
        ),
{
    assert(shape.n_rows as nat * shape.systematic_cells() >= 0) by (nonlinear_arith);
}

/// The inputs of the nodes of the tree over a column.
pub proof fn lemma_input_merkle(k: PoseidonConstants, shape: LeanAirShape, data: Seq<Seq<F>>, cell: int, t: int)
    requires
        0 <= cell < shape.cells(),
        0 <= t < shape.padded() - 1,
    ensures
        row_input(k, shape, data, schedule::merkle_row(shape, cell, t)) == hashing::tree_input(
            k,
            column_leaves(k, shape, data, cell),
            t as nat,
        ),
{
    assert(shape.n_rows as nat * shape.systematic_cells() >= 0) by (nonlinear_arith);
    schedule::lemma_block_bound(cell, shape.cells() as int, t, shape.padded() - 1);
    lemma_decode(cell, t, shape.padded() - 1);
}

/// The inputs of the nodes of the tree over the columns.
pub proof fn lemma_input_column_root(k: PoseidonConstants, shape: LeanAirShape, data: Seq<Seq<F>>, t: int)
    requires
        shape.padded() >= 1,
        0 <= t < shape.cells() - 1,
    ensures
        row_input(k, shape, data, schedule::root_row(shape, t)) == hashing::tree_input(
            k,
            column_root_list(k, shape, data),
            t as nat,
        ),
{
    assert(shape.n_rows as nat * shape.systematic_cells() >= 0) by (nonlinear_arith);
    assert(shape.cells() * ((shape.padded() - 1) as nat) >= 0) by (nonlinear_arith);
}

/// The input of the last compression.
pub proof fn lemma_input_final(k: PoseidonConstants, shape: LeanAirShape, data: Seq<Seq<F>>)
    requires
        shape.padded() >= 1,
        shape.cells() >= 1,
    ensures
        row_input(k, shape, data, shape.final_row()) == row_root_spec(k, shape, data) + column_root_spec(
            k,
            shape,
            data,
        ),
{
    assert(shape.n_rows as nat * shape.systematic_cells() >= 0) by (nonlinear_arith);
    assert(shape.cells() * ((shape.padded() - 1) as nat) >= 0) by (nonlinear_arith);
}

/// Whether the rows so far are the hash rows of the data, in order.
pub open spec fn rows_done(
    k: PoseidonConstants,
    shape: LeanAirShape,
    data: Seq<Seq<F>>,
    rows: Seq<DedicatedPoseidonCols<F>>,
) -> bool {
    forall|i: int| 0 <= i < rows.len() ==> hashing::row_is(k, #[trigger] rows[i], row_input(k, shape, data, i))
}

/// Rows added in order keep the rows done.
pub proof fn lemma_rows_extended(
    k: PoseidonConstants,
    shape: LeanAirShape,
    data: Seq<Seq<F>>,
    before: Seq<DedicatedPoseidonCols<F>>,
    after: Seq<DedicatedPoseidonCols<F>>,
    n: nat,
    input: spec_fn(int) -> Seq<F>,
)
    requires
        rows_done(k, shape, data, before),
        hashing::extended(k, before, after, n, input),
        forall|j: int| 0 <= j < n ==> #[trigger] input(j) == row_input(k, shape, data, before.len() + j),
    ensures
        rows_done(k, shape, data, after),
{
    assert forall|i: int| 0 <= i < after.len() implies hashing::row_is(
        k,
        #[trigger] after[i],
        row_input(k, shape, data, i),
    ) by {
        if i < before.len() {
            assert(after[i] == before[i]);
        } else {
            let j: int = i - before.len();
            assert(input(j) == row_input(k, shape, data, before.len() + j));
        }
    }
}

/// The data as sequences.
pub open spec fn data_views(data: Seq<Vec<F>>) -> Seq<Seq<F>> {
    Seq::new(data.len(), |i: int| data[i]@)
}

} // verus!
