//! Where the hash rows of the table stand.
use super::shape;
use super::shape::LeanAirShape;
use crate::arith;
use vstd::arithmetic::div_mod::*;
use vstd::arithmetic::power2::*;
use vstd::prelude::*;

verus! {

/// What a hash row is for.
#[derive(Clone, Copy, Debug, PartialEq, Eq, Structural)]
pub enum HashKind {
    /// A step of the hash of a cell.
    Cell,
    /// A step of the chain over the cells of the first half of a codeword.
    SystematicRow,
    /// A step of the chain over the codewords.
    RowRoot,
    /// A node of the tree over the cells of a column.
    ColumnMerkle,
    /// A node of the tree over the columns.
    ColumnRoot,
    /// The compression of the two roots.
    FinalRoot,
}

impl HashKind {
    /// The number of kinds of hash rows.
    pub const COUNT: usize = 6;

    pub open spec fn index(self) -> int {
        match self {
            HashKind::Cell => 0,
            HashKind::SystematicRow => 1,
            HashKind::RowRoot => 2,
            HashKind::ColumnMerkle => 3,
            HashKind::ColumnRoot => 4,
            HashKind::FinalRoot => 5,
        }
    }

    /// The position of the kind in the order of the table.
    pub fn as_index(self) -> (r: usize)
        ensures
            r == self.index(),
    {
        match self {
            HashKind::Cell => 0,
            HashKind::SystematicRow => 1,
            HashKind::RowRoot => 2,
            HashKind::ColumnMerkle => 3,
            HashKind::ColumnRoot => 4,
            HashKind::FinalRoot => 5,
        }
    }
}

/// The number of hash rows of each kind.
#[derive(Clone, Copy, Debug)]
pub struct HashSchedule {
    pub shape: LeanAirShape,
    pub chunks_per_cell: usize,
    pub active_rows: usize,
    pub padded_rows: usize,
    pub counts_by_kind: [usize; 6],
}

/// The number of hash rows of a kind.
pub open spec fn kind_count(shape: LeanAirShape, kind: HashKind) -> int {
    match kind {
        HashKind::Cell => shape.n_rows * shape.cells() * shape.chunks(),
        HashKind::SystematicRow => shape.n_rows * shape.systematic_cells(),
        HashKind::RowRoot => shape.n_rows as int,
        HashKind::ColumnMerkle => shape.cells() * (shape.padded() - 1),
        HashKind::ColumnRoot => shape.cells() - 1,
        HashKind::FinalRoot => 1,
    }
}

impl HashSchedule {
    /// Whether the schedule is the one of its shape.
    pub open spec fn wf(self) -> bool {
        &&& self.chunks_per_cell == self.shape.chunks()
        &&& self.active_rows == self.shape.total_rows()
        &&& self.padded_rows == self.shape.table_rows()
        &&& forall|kind: HashKind|
            #[trigger] self.counts_by_kind@[kind.index()] == kind_count(self.shape, kind)
    }

    pub fn new(shape: LeanAirShape) -> (r: HashSchedule)
        requires
            shape.cell_len_ext > 0,
            shape.cell_base() % 8 == 0,
            shape.cells() >= 1,
            shape.fits(),
        ensures
            r.shape == shape,
            r.wf(),
    {
        proof {
            lemma_row_products(shape);
        }
        let chunks: usize = shape.chunks_per_cell();
        let cells: usize = shape.num_cells();
        let n_rows: usize = shape.n_rows;
        let systematic: usize = shape.num_systematic_cells();
        let padded: usize = shape.padded_rows();
        let cell: usize = n_rows * cells * chunks;
        let systematic_row: usize = n_rows * systematic;
        let row_root: usize = n_rows;
        let column_merkle: usize = cells * (padded - 1);
        let column_root: usize = cells - 1;
        let final_root: usize = 1;
        let active_rows: usize = cell + systematic_row + row_root + column_merkle + column_root + final_root;
        let counts_by_kind: [usize; 6] = [cell, systematic_row, row_root, column_merkle, column_root, final_root];
        HashSchedule {
            shape,
            chunks_per_cell: chunks,
            active_rows,
            padded_rows: padded_table_rows(active_rows),
            counts_by_kind,
        }
    }

    /// Whether the schedule is the one of its shape.
    pub fn is_of_shape(&self) -> (r: bool)
        requires
            self.shape.cell_len_ext > 0,
            self.shape.cell_base() % 8 == 0,
            self.shape.cells() >= 1,
            self.shape.fits(),
        ensures
            r == self.wf(),
    {
        let right = HashSchedule::new(self.shape);
        let mut i: usize = 0;
        while i < HashKind::COUNT
            invariant
                i <= HashKind::COUNT == 6,
                right.shape == self.shape,
                right.wf(),
                forall|j: int| 0 <= j < i ==> #[trigger] self.counts_by_kind@[j] == right.counts_by_kind@[j],
            decreases HashKind::COUNT - i,
        {
            if self.counts_by_kind[i] != right.counts_by_kind[i] {
                proof {
                    let kind = if i == 0 {
                        HashKind::Cell
                    } else if i == 1 {
                        HashKind::SystematicRow
                    } else if i == 2 {
                        HashKind::RowRoot
                    } else if i == 3 {
                        HashKind::ColumnMerkle
                    } else if i == 4 {
                        HashKind::ColumnRoot
                    } else {
                        HashKind::FinalRoot
                    };
                    assert(right.counts_by_kind@[kind.index()] == kind_count(self.shape, kind));
                    assert(self.counts_by_kind@[kind.index()] != kind_count(self.shape, kind));
                }
                return false;
            }
            i = i + 1;
        }
        proof {
            assert forall|kind: HashKind| #[trigger] self.counts_by_kind@[kind.index()] == kind_count(
                self.shape,
                kind,
            ) by {
                assert(right.counts_by_kind@[kind.index()] == kind_count(self.shape, kind));
            }
        }
        self.chunks_per_cell == right.chunks_per_cell && self.active_rows == right.active_rows && self.padded_rows
            == right.padded_rows
    }
}

/// The number of rows of a table with `active_rows` hash rows: a power of two above it.
pub fn padded_table_rows(active_rows: usize) -> (r: usize)
    requires
        arith::next_pow2((active_rows + 1) as nat) <= usize::MAX,
    ensures
        r == arith::next_pow2((active_rows + 1) as nat),
        r > active_rows,
        arith::is_power(r as nat),
{
    proof {
        arith::lemma_next_pow2((active_rows + 1) as nat);
    }
    arith::next_power_of_two(active_rows + 1)
}

/// The number of hash rows of a shape.
pub fn active_poseidon_rows_for_shape(shape: LeanAirShape) -> (r: usize)
    requires
        shape.cell_len_ext > 0,
        shape.cells() >= 1,
        shape.fits_rows(),
    ensures
        r == shape.total_rows(),
{
    proof {
        lemma_row_products(shape);
    }
    let chunks: usize = shape.chunks_per_cell();
    let cell_hash: usize = shape.n_rows * shape.num_cells() * chunks;
    let row_digest: usize = shape.n_rows * shape.num_systematic_cells();
    let row_root: usize = shape.n_rows;
    let column_merkle: usize = shape.num_cells() * (shape.padded_rows() - 1);
    let column_root: usize = shape.num_cells() - 1;
    cell_hash + row_digest + row_root + column_merkle + column_root + 1
}

/// The number of rows of the table of a shape.
pub fn poseidon_rows_for_shape(shape: LeanAirShape) -> (r: usize)
    requires
        shape.cell_len_ext > 0,
        shape.cells() >= 1,
        shape.fits(),
    ensures
        r == shape.table_rows(),
{
    padded_table_rows(active_poseidon_rows_for_shape(shape))
}

/// Every product that counts hash rows is at most the number of them.
pub proof fn lemma_row_products(shape: LeanAirShape)
    requires
        shape.cell_len_ext > 0,
        shape.cells() >= 1,
        shape.fits_rows(),
    ensures
        shape.chunks() >= 1,
        shape.padded() >= 1,
        shape.codeword_len() <= usize::MAX,
        shape.message_len() <= usize::MAX,
        shape.cells() <= usize::MAX,
        shape.systematic_cells() <= usize::MAX,
        0 <= shape.n_rows * shape.cells() <= shape.systematic_start(),
        shape.n_rows * shape.cells() * shape.chunks() == shape.systematic_start(),
        0 <= shape.n_rows * shape.systematic_cells(),
        shape.systematic_start() <= shape.row_root_start(),
        shape.row_root_start() <= shape.column_merkle_start(),
        shape.column_merkle_start() <= shape.column_root_start(),
        shape.cells() * ((shape.padded() - 1) as nat) >= 0,
        shape.column_root_start() <= shape.final_row(),
        shape.total_rows() < shape.table_rows(),
        shape.fits() ==> shape.total_rows() + 1 <= usize::MAX,
{
    arith::lemma_next_pow2(shape.n_rows as nat);
    arith::lemma_next_pow2((shape.total_rows() + 1) as nat);
    let n: nat = shape.n_rows as nat;
    let c: nat = shape.cells();
    let k: nat = shape.chunks();
    assert(n * c <= n * c * k) by (nonlinear_arith)
        requires
            k >= 1,
            n >= 0,
            c >= 0,
    ;
    assert(n * shape.systematic_cells() >= 0) by (nonlinear_arith);
    assert(c * ((shape.padded() - 1) as nat) >= 0) by (nonlinear_arith);
    lemma_div_is_ordered_by_denominator(shape.codeword_len() as int, 1, shape.cell_len_ext as int);
    lemma_div_is_ordered_by_denominator(shape.message_len() as int, 1, shape.cell_len_ext as int);
}

/// The bounds of [`lemma_row_products`] for a valid shape, with room for twice the cells and rows.
pub proof fn lemma_row_products_valid(shape: LeanAirShape)
    requires
        shape.valid(),
        shape.fits_rows(),
    ensures
        shape.cells() >= 2,
        arith::is_power(shape.cells()),
        arith::is_power(shape.padded()),
        shape.systematic_cells() >= 1,
        shape.cells() == 2 * shape.systematic_cells(),
        shape.chunks() >= 4,
        shape.padded() >= 1,
        shape.codeword_len() <= usize::MAX,
        shape.message_len() <= usize::MAX,
        2 * shape.cells() <= usize::MAX,
        2 * shape.padded() <= usize::MAX,
        shape.total_rows() < shape.table_rows(),
        shape.fits() ==> shape.total_rows() + 1 <= usize::MAX,
{
    let b = shape::lemma_shape(shape);
    lemma_row_products(shape);
    arith::lemma_next_pow2(shape.n_rows as nat);
    let w: nat = shape.cells();
    let h: nat = shape.chunks();
    let n: nat = shape.n_rows as nat;
    let p: nat = shape.padded();
    assert(4 * w <= n * w * h) by (nonlinear_arith)
        requires
            n >= 1,
            h >= 4,
    ;
    assert(2 * (p - 1) <= w * ((p - 1) as nat)) by (nonlinear_arith)
        requires
            w >= 2,
            p >= 1,
    ;
}

/// The row of step `chunk` of the hash of cell `cell` of codeword `row`.
pub open spec fn cell_row(shape: LeanAirShape, row: int, cell: int, chunk: int) -> int {
    (row * shape.cells() + cell) * shape.chunks() + chunk
}

/// The row whose output is the digest of a cell.
pub open spec fn cell_digest_row_spec(shape: LeanAirShape, row: int, cell: int) -> int {
    cell_row(shape, row, cell, shape.chunks() - 1)
}

/// The row of step `cell` of the chain over the cells of codeword `row`.
pub open spec fn systematic_row(shape: LeanAirShape, row: int, cell: int) -> int {
    shape.systematic_start() + row * shape.systematic_cells() + cell
}

/// The row of step `row` of the chain over the codewords.
pub open spec fn row_root_row_spec(shape: LeanAirShape, row: int) -> int {
    shape.row_root_start() + row
}

/// The row of node `node` of the tree over column `cell`; nodes are numbered layer by layer from
/// the leaves.
pub open spec fn merkle_row(shape: LeanAirShape, cell: int, node: int) -> int {
    shape.column_merkle_start() + cell * (shape.padded() - 1) + node
}

/// The row of node `node` of the tree over the columns.
pub open spec fn root_row(shape: LeanAirShape, node: int) -> int {
    shape.column_root_start() + node
}

/// The number that node `index` of layer `layer` has in a tree with `leaves` leaves.
pub open spec fn tree_node(leaves: nat, layer: nat, index: int) -> int {
    leaves - leaves / pow2(layer) + index
}

/// The first rows of the parts of the table.
#[derive(Clone, Copy, Debug)]
pub struct ScheduleRanges {
    pub cell_start: usize,
    pub systematic_row_start: usize,
    pub row_root_start: usize,
    pub column_merkle_start: usize,
    pub column_root_start: usize,
    pub final_root_row: usize,
    pub chunks_per_cell: usize,
}

impl ScheduleRanges {
    /// Whether the ranges are those of a shape.
    pub open spec fn of_shape(self, shape: LeanAirShape) -> bool {
        &&& self.cell_start == 0
        &&& self.systematic_row_start == shape.systematic_start()
        &&& self.row_root_start == shape.row_root_start()
        &&& self.column_merkle_start == shape.column_merkle_start()
        &&& self.column_root_start == shape.column_root_start()
        &&& self.final_root_row == shape.final_row()
        &&& self.chunks_per_cell == shape.chunks()
    }

    pub fn new(shape: LeanAirShape) -> (r: ScheduleRanges)
        requires
            shape.cell_len_ext > 0,
            shape.cells() >= 1,
            shape.fits_rows(),
        ensures
            r.of_shape(shape),
    {
        proof {
            lemma_row_products(shape);
        }
        let chunks_per_cell: usize = shape.chunks_per_cell();
        let cell_count: usize = shape.n_rows * shape.num_cells() * chunks_per_cell;
        let systematic_count: usize = shape.n_rows * shape.num_systematic_cells();
        let row_root_count: usize = shape.n_rows;
        let column_merkle_count: usize = shape.num_cells() * (shape.padded_rows() - 1);
        let column_root_count: usize = shape.num_cells() - 1;

        let systematic_row_start: usize = cell_count;
        let row_root_start: usize = systematic_row_start + systematic_count;
        let column_merkle_start: usize = row_root_start + row_root_count;
        let column_root_start: usize = column_merkle_start + column_merkle_count;
        let final_root_row: usize = column_root_start + column_root_count;
        ScheduleRanges {
            cell_start: 0,
            systematic_row_start,
            row_root_start,
            column_merkle_start,
            column_root_start,
            final_root_row,
            chunks_per_cell,
        }
    }

    pub fn cell_hash_row(self, shape: LeanAirShape, row_idx: usize, cell_idx: usize, chunk_idx: usize) -> (r: usize)
        requires
            shape.cell_len_ext > 0,
            shape.cells() >= 1,
            shape.fits_rows(),
            self.of_shape(shape),
            row_idx < shape.n_rows,
            cell_idx < shape.cells(),
            chunk_idx < shape.chunks(),
        ensures
            r == cell_row(shape, row_idx as int, cell_idx as int, chunk_idx as int),
            r < shape.systematic_start(),
    {
        proof {
            lemma_row_products(shape);
            lemma_cell_row_bound(shape, row_idx as int, cell_idx as int, chunk_idx as int);
        }
        let cells: usize = shape.num_cells();
        self.cell_start + (row_idx * cells + cell_idx) * self.chunks_per_cell + chunk_idx
    }

    pub fn cell_digest_row(self, shape: LeanAirShape, row_idx: usize, cell_idx: usize) -> (r: usize)
        requires
            shape.cell_len_ext > 0,
            shape.cells() >= 1,
            shape.fits_rows(),
            self.of_shape(shape),
            row_idx < shape.n_rows,
            cell_idx < shape.cells(),
        ensures
            r == cell_digest_row_spec(shape, row_idx as int, cell_idx as int),
            r < shape.systematic_start(),
    {
        proof {
            lemma_row_products(shape);
        }
        self.cell_hash_row(shape, row_idx, cell_idx, self.chunks_per_cell - 1)
    }

    pub fn systematic_row_digest_row(self, shape: LeanAirShape, row_idx: usize, cell_idx: usize) -> (r: usize)
        requires
            shape.cell_len_ext > 0,
            shape.cells() >= 1,
            shape.fits_rows(),
            self.of_shape(shape),
            row_idx < shape.n_rows,
            cell_idx < shape.systematic_cells(),
        ensures
            r == systematic_row(shape, row_idx as int, cell_idx as int),
            shape.systematic_start() <= r < shape.row_root_start(),
    {
        proof {
            lemma_row_products(shape);
            lemma_block_bound(
                row_idx as int,
                shape.n_rows as int,
                cell_idx as int,
                shape.systematic_cells() as int,
            );
        }
        let systematic: usize = shape.num_systematic_cells();
        self.systematic_row_start + row_idx * systematic + cell_idx
    }

    pub fn row_root_row(self, row_idx: usize) -> (r: usize)
        requires
            self.row_root_start + row_idx <= usize::MAX,
        ensures
            r == self.row_root_start + row_idx,
    {
        self.row_root_start + row_idx
    }

    pub fn column_merkle_row(self, shape: LeanAirShape, cell_idx: usize, layer_idx: usize, node_idx: usize) -> (r: usize)
        requires
            shape.cell_len_ext > 0,
            shape.cells() >= 1,
            shape.fits_rows(),
            self.of_shape(shape),
            cell_idx < shape.cells(),
            pow2((layer_idx + 1) as nat) <= shape.padded(),
            node_idx < shape.padded() / pow2((layer_idx + 1) as nat),
        ensures
            r == merkle_row(shape, cell_idx as int, tree_node(shape.padded(), layer_idx as nat, node_idx as int)),
            0 <= tree_node(shape.padded(), layer_idx as nat, node_idx as int) < shape.padded() - 1,
            shape.column_merkle_start() <= r < shape.column_root_start(),
    {
        let padded: usize = shape.padded_rows();
        proof {
            lemma_row_products(shape);
            let k: nat = arith::log2_ceil_spec(shape.n_rows as nat);
            lemma_tree_node_bound(k, layer_idx as nat, node_idx as int);
            lemma_block_bound(
                cell_idx as int,
                shape.cells() as int,
                tree_node(shape.padded(), layer_idx as nat, node_idx as int),
                shape.padded() - 1,
            );
            arith::lemma_pow2_monotone(layer_idx as nat, (layer_idx + 1) as nat);
            lemma_pow2_pos(layer_idx as nat);
            lemma_div_is_ordered_by_denominator(padded as int, 1, pow2(layer_idx as nat) as int);
        }
        let width: usize = padded / arith::power_of_two(layer_idx);
        self.column_merkle_start + cell_idx * (padded - 1) + (padded - width + node_idx)
    }

    pub fn column_root_row(self, shape: LeanAirShape, layer_idx: usize, node_idx: usize) -> (r: usize)
        requires
            shape.valid(),
            shape.fits_rows(),
            self.of_shape(shape),
            pow2((layer_idx + 1) as nat) <= shape.cells(),
            node_idx < shape.cells() / pow2((layer_idx + 1) as nat),
        ensures
            r == root_row(shape, tree_node(shape.cells(), layer_idx as nat, node_idx as int)),
            0 <= tree_node(shape.cells(), layer_idx as nat, node_idx as int) < shape.cells() - 1,
            shape.column_root_start() <= r < shape.final_row(),
    {
        proof {
            let b = shape::lemma_shape(shape);
            lemma_row_products(shape);
            lemma_tree_node_bound((shape.log_m - b + 1) as nat, layer_idx as nat, node_idx as int);
            arith::lemma_pow2_monotone(layer_idx as nat, (layer_idx + 1) as nat);
            lemma_pow2_pos(layer_idx as nat);
            lemma_div_is_ordered_by_denominator(shape.cells() as int, 1, pow2(layer_idx as nat) as int);
        }
        let num_cells: usize = shape.num_cells();
        let width: usize = num_cells / arith::power_of_two(layer_idx);
        self.column_root_start + (num_cells - width + node_idx)
    }
}

/// `row * width + i` stays below `rows * width`.
pub proof fn lemma_block_bound(row: int, rows: int, i: int, width: int)
    requires
        0 <= row < rows,
        0 <= i < width,
    ensures
        0 <= row * width <= row * width + i < rows * width,
{
    assert(row * width + i < rows * width && 0 <= row * width) by (nonlinear_arith)
        requires
            0 <= row,
            row + 1 <= rows,
            0 <= i < width,
    ;
}

pub proof fn lemma_cell_row_bound(shape: LeanAirShape, row: int, cell: int, chunk: int)
    requires
        0 <= row < shape.n_rows,
        0 <= cell < shape.cells(),
        0 <= chunk < shape.chunks(),
    ensures
        0 <= row * shape.cells() + cell < shape.n_rows * shape.cells(),
        0 <= (row * shape.cells() + cell) * shape.chunks() <= cell_row(shape, row, cell, chunk)
            < shape.systematic_start(),
{
    lemma_block_bound(row, shape.n_rows as int, cell, shape.cells() as int);
    lemma_block_bound(
        row * shape.cells() + cell,
        shape.n_rows * shape.cells(),
        chunk,
        shape.chunks() as int,
    );
}

/// Of a tree with `2^k` leaves: node `index` of a layer has a number below `2^k - 1`, and its
/// children are the entries twice that number and the next, counted from the leaves on.
pub proof fn lemma_tree_node_bound(k: nat, layer: nat, index: int)
    requires
        pow2(layer + 1) <= pow2(k),
        0 <= index < pow2(k) / pow2(layer + 1),
    ensures
        layer < k,
        pow2(k) / pow2(layer) == pow2((k - layer) as nat),
        pow2(k) / pow2(layer + 1) == pow2((k - layer - 1) as nat),
        pow2((k - layer) as nat) == 2 * pow2((k - layer - 1) as nat),
        pow2((k - layer) as nat) <= pow2(k),
        0 <= tree_node(pow2(k), layer, index) < pow2(k) - 1,
        layer == 0 ==> tree_node(pow2(k), layer, index) == index,
        layer > 0 ==> 2 * tree_node(pow2(k), layer, index) == pow2(k) + tree_node(
            pow2(k),
            (layer - 1) as nat,
            2 * index,
        ),
{
    lemma2_to64();
    if layer >= k {
        lemma_pow2_strictly_increases(k, layer + 1);
    }
    lemma_pow2_subtracts(layer, k);
    lemma_pow2_subtracts(layer + 1, k);
    assert((k - (layer + 1)) as nat == (k - layer - 1) as nat);
    lemma_pow2_unfold((k - layer) as nat);
    arith::lemma_pow2_monotone((k - layer) as nat, k);
    if layer > 0 {
        lemma_pow2_subtracts((layer - 1) as nat, k);
        lemma_pow2_unfold((k - layer + 1) as nat);
        assert((k - (layer - 1)) as nat == (k - layer + 1) as nat);
    }
}

} // verus!
