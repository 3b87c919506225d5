//! The rows of the tables and what each is for.
use super::shape::{LeanAirShape, DIGEST_LEN};
use crate::arith;
use crate::lean_air::schedule as air_schedule;
use crate::lean_air::shape as air_shape;
use vstd::arithmetic::div_mod::*;
use vstd::arithmetic::mul::*;
use vstd::arithmetic::power2::*;
use vstd::prelude::*;

verus! {

/// What a compression is for.
#[derive(Clone, Copy, Debug, PartialEq, Eq, Structural)]
pub enum PoseidonCallKind {
    /// A step of the hash of a cell.
    CellHash,
    /// A step of the chain over the cells of the first half of a codeword.
    RowDigest,
    /// A step of the chain over the codewords.
    RowRoot,
    /// A node of the tree over the cells of a column.
    ColumnMerkle,
    /// A node of the tree over the columns.
    ColumnRoot,
    /// The compression of the two roots.
    FinalRoot,
}

impl PoseidonCallKind {
    /// The number of kinds.
    pub const COUNT: usize = 6;

    /// The place of the kind in the order of the trace.
    pub open spec fn index(self) -> int {
        match self {
            PoseidonCallKind::CellHash => 0,
            PoseidonCallKind::RowDigest => 1,
            PoseidonCallKind::RowRoot => 2,
            PoseidonCallKind::ColumnMerkle => 3,
            PoseidonCallKind::ColumnRoot => 4,
            PoseidonCallKind::FinalRoot => 5,
        }
    }

    /// The place of the kind in the order of the trace.
    pub fn as_index(self) -> (r: usize)
        ensures
            r == self.index(),
            r < 6,
    {
        match self {
            PoseidonCallKind::CellHash => 0,
            PoseidonCallKind::RowDigest => 1,
            PoseidonCallKind::RowRoot => 2,
            PoseidonCallKind::ColumnMerkle => 3,
            PoseidonCallKind::ColumnRoot => 4,
            PoseidonCallKind::FinalRoot => 5,
        }
    }
}

/// Rows that follow one another.
#[derive(Clone, Copy, Debug, PartialEq, Eq, Structural)]
pub struct RowRange {
    pub start: usize,
    pub len: usize,
}

impl RowRange {
    /// The row after the last.
    pub fn end(self) -> (r: usize)
        requires
            self.start + self.len <= usize::MAX,
        ensures
            r == self.start + self.len,
    {
        self.start + self.len
    }

    /// Whether a row is one of them.
    pub fn contains(self, row: usize) -> (r: bool)
        requires
            self.start + self.len <= usize::MAX,
        ensures
            r <==> self.start <= row < self.start + self.len,
    {
        self.start <= row && row < self.end()
    }
}

/// The rows of the hash table, kind by kind.
#[derive(Clone, Copy, Debug, PartialEq, Eq, Structural)]
pub struct LeanAirHashSchedule {
    pub shape: LeanAirShape,
    pub chunks_per_cell: usize,
    pub cell_hash: RowRange,
    pub row_digest: RowRange,
    pub row_root: RowRange,
    pub column_merkle: RowRange,
    pub column_root: RowRange,
    pub final_root: RowRange,
    pub padded_rows: usize,
}

/// What a row of the hash table is for, and which of its kind it is.
#[derive(Clone, Copy, Debug, PartialEq, Eq, Structural)]
pub struct LeanAirHashRowMeta {
    pub kind: PoseidonCallKind,
    pub row_idx: Option<usize>,
    pub cell_idx: Option<usize>,
    pub chunk_idx: Option<usize>,
    pub layer_idx: Option<usize>,
    pub node_idx: Option<usize>,
}

/// Whether a description is that of a row of the hash table.
pub open spec fn describes(shape: LeanAirShape, meta: LeanAirHashRowMeta, row: int) -> bool {
    let a = shape.air();
    match meta.kind {
        PoseidonCallKind::CellHash => {
            &&& meta.row_idx matches Some(r) && meta.cell_idx matches Some(c) && meta.chunk_idx matches Some(j) && r
                < a.n_rows && c < a.cells() && j < a.chunks() && row == air_schedule::cell_row(
                a,
                r as int,
                c as int,
                j as int,
            )
            &&& meta.layer_idx is None
            &&& meta.node_idx is None
        },
        PoseidonCallKind::RowDigest => {
            &&& meta.row_idx matches Some(r) && meta.cell_idx matches Some(c) && r < a.n_rows && c
                < a.systematic_cells() && row == air_schedule::systematic_row(a, r as int, c as int)
            &&& meta.chunk_idx is None
            &&& meta.layer_idx is None
            &&& meta.node_idx is None
        },
        PoseidonCallKind::RowRoot => {
            &&& meta.row_idx matches Some(r) && r < a.n_rows && row == air_schedule::row_root_row_spec(a, r as int)
            &&& meta.cell_idx is None
            &&& meta.chunk_idx is None
            &&& meta.layer_idx is None
            &&& meta.node_idx is None
        },
        PoseidonCallKind::ColumnMerkle => {
            &&& meta.cell_idx matches Some(c) && meta.layer_idx matches Some(l) && meta.node_idx matches Some(i) && c
                < a.cells() && pow2((l + 1) as nat) <= a.padded() && i < a.padded() / pow2((l + 1) as nat) && row
                == air_schedule::merkle_row(
                a,
                c as int,
                air_schedule::tree_node(a.padded(), l as nat, i as int),
            )
            &&& meta.row_idx is None
            &&& meta.chunk_idx is None
        },
        PoseidonCallKind::ColumnRoot => {
            &&& meta.layer_idx matches Some(l) && meta.node_idx matches Some(i) && pow2((l + 1) as nat) <= a.cells() && i
                < a.cells() / pow2((l + 1) as nat) && row == air_schedule::root_row(
                a,
                air_schedule::tree_node(a.cells(), l as nat, i as int),
            )
            &&& meta.row_idx is None
            &&& meta.cell_idx is None
            &&& meta.chunk_idx is None
        },
        PoseidonCallKind::FinalRoot => {
            &&& row == a.final_row()
            &&& meta.row_idx is None
            &&& meta.cell_idx is None
            &&& meta.chunk_idx is None
            &&& meta.layer_idx is None
            &&& meta.node_idx is None
        },
    }
}

/// The kind of a row of the hash table.
pub open spec fn kind_at(shape: LeanAirShape, row: int) -> PoseidonCallKind {
    let a = shape.air();
    if row < a.systematic_start() {
        PoseidonCallKind::CellHash
    } else if row < a.row_root_start() {
        PoseidonCallKind::RowDigest
    } else if row < a.column_merkle_start() {
        PoseidonCallKind::RowRoot
    } else if row < a.column_root_start() {
        PoseidonCallKind::ColumnMerkle
    } else if row < a.final_row() {
        PoseidonCallKind::ColumnRoot
    } else {
        PoseidonCallKind::FinalRoot
    }
}

/// The number of rows of a table with `active_rows` rows: a power of two above it.
pub fn padded_table_rows(active_rows: usize) -> (r: usize)
    requires
        arith::next_pow2((active_rows + 1) as nat) <= usize::MAX,
    ensures
        r == arith::next_pow2((active_rows + 1) as nat),
{
    air_schedule::padded_table_rows(active_rows)
}

/// The number of hash rows of a cell.
pub fn chunks_per_cell(shape: LeanAirShape) -> (r: usize)
    requires
        shape.cell_len_ext * 5 <= usize::MAX,
        (shape.cell_len_ext * 5) % 8 == 0,
    ensures
        r == shape.air().chunks(),
{
    let base: usize = shape.cell_len_base();
    if base <= 2 * DIGEST_LEN {
        1
    } else {
        let tail: usize = base - 2 * DIGEST_LEN;
        1 + tail / DIGEST_LEN + (if tail % DIGEST_LEN == 0 {
            0
        } else {
            1
        })
    }
}

/// The next `len` rows.
fn push_range(start: &mut usize, len: usize) -> (r: RowRange)
    requires
        *old(start) + len <= usize::MAX,
    ensures
        r == (RowRange { start: *old(start), len }),
        *final(start) == *old(start) + len,
{
    let range = RowRange { start: *start, len };
    *start = *start + len;
    range
}

impl LeanAirHashSchedule {
    /// Whether the schedule is the one of its shape.
    pub open spec fn wf(self) -> bool {
        let a = self.shape.air();
        &&& self.chunks_per_cell == a.chunks()
        &&& self.cell_hash.start == 0
        &&& self.cell_hash.len == a.systematic_start()
        &&& self.row_digest.start == a.systematic_start()
        &&& self.row_digest.len == a.row_root_start() - a.systematic_start()
        &&& self.row_root.start == a.row_root_start()
        &&& self.row_root.len == a.n_rows
        &&& self.column_merkle.start == a.column_merkle_start()
        &&& self.column_merkle.len == a.column_root_start() - a.column_merkle_start()
        &&& self.column_root.start == a.column_root_start()
        &&& self.column_root.len == a.cells() - 1
        &&& self.final_root.start == a.final_row()
        &&& self.final_root.len == 1
        &&& self.padded_rows == a.table_rows()
    }

    /// The schedule of a shape.
    pub fn new(shape: LeanAirShape) -> (r: LeanAirHashSchedule)
        requires
            shape.air().valid(),
            shape.air().fits(),
        ensures
            r.shape == shape,
            r.wf(),
    {
        let ghost a = shape.air();
        proof {
            air_schedule::lemma_row_products_valid(a);
            air_schedule::lemma_row_products(a);
            lemma_divides(shape);
        }
        let chunks: usize = chunks_per_cell(shape);
        let cells: usize = shape.num_cells();
        let systematic: usize = shape.num_systematic_cells();
        let padded: usize = shape.padded_rows();
        let mut start: usize = 0;
        let cell_hash = push_range(&mut start, shape.n_rows * cells * chunks);
        let row_digest = push_range(&mut start, shape.n_rows * systematic);
        let row_root = push_range(&mut start, shape.n_rows);
        let column_merkle = push_range(&mut start, cells * (padded - 1));
        let column_root = push_range(&mut start, cells - 1);
        let final_root = push_range(&mut start, 1);
        LeanAirHashSchedule {
            shape,
            chunks_per_cell: chunks,
            cell_hash,
            row_digest,
            row_root,
            column_merkle,
            column_root,
            final_root,
            padded_rows: padded_table_rows(start),
        }
    }

    /// The number of hash rows.
    pub fn active_rows(self) -> (r: usize)
        requires
            self.final_root.start + self.final_root.len <= usize::MAX,
        ensures
            r == self.final_root.start + self.final_root.len,
            self.wf() ==> r == self.shape.air().total_rows(),
    {
        self.final_root.end()
    }

    /// What a row is for, none where it is no hash row.
    pub fn row_meta(self, row: usize) -> (r: Option<LeanAirHashRowMeta>)
        requires
            self.wf(),
            self.shape.air().valid(),
            self.shape.air().fits(),
        ensures
            r is Some <==> row < self.shape.air().total_rows(),
            r matches Some(meta) ==> describes(self.shape, meta, row as int) && meta.kind == kind_at(
                self.shape,
                row as int,
            ),
    {
        let ghost a = self.shape.air();
        proof {
            air_schedule::lemma_row_products_valid(a);
            air_schedule::lemma_row_products(a);
            lemma_divides(self.shape);
        }
        let cells: usize = self.shape.num_cells();
        let systematic: usize = self.shape.num_systematic_cells();
        let chunks: usize = self.chunks_per_cell;
        if self.cell_hash.contains(row) {
            proof {
                lemma_cell_parts(a, row as int);
            }
            let per_row: usize = cells * chunks;
            let row_idx: usize = row / per_row;
            let within_row: usize = row % per_row;
            let cell_idx: usize = within_row / chunks;
            let chunk_idx: usize = within_row % chunks;
            return Some(
                LeanAirHashRowMeta {
                    kind: PoseidonCallKind::CellHash,
                    row_idx: Some(row_idx),
                    cell_idx: Some(cell_idx),
                    chunk_idx: Some(chunk_idx),
                    layer_idx: None,
                    node_idx: None,
                },
            );
        }
        if self.row_digest.contains(row) {
            let local: usize = row - self.row_digest.start;
            proof {
                lemma_block_parts(local as int, a.n_rows as int, systematic as int);
            }
            return Some(
                LeanAirHashRowMeta {
                    kind: PoseidonCallKind::RowDigest,
                    row_idx: Some(local / systematic),
                    cell_idx: Some(local % systematic),
                    chunk_idx: None,
                    layer_idx: None,
                    node_idx: None,
                },
            );
        }
        if self.row_root.contains(row) {
            return Some(
                LeanAirHashRowMeta {
                    kind: PoseidonCallKind::RowRoot,
                    row_idx: Some(row - self.row_root.start),
                    cell_idx: None,
                    chunk_idx: None,
                    layer_idx: None,
                    node_idx: None,
                },
            );
        }
        if self.column_merkle.contains(row) {
            let local: usize = row - self.column_merkle.start;
            let padded: usize = self.shape.padded_rows();
            proof {
                if padded == 1 {
                    lemma_mul_by_zero_is_zero(a.cells() as int);
                }
                lemma_block_parts(local as int, a.cells() as int, padded - 1);
            }
            let per_column: usize = padded - 1;
            let cell_idx: usize = local / per_column;
            let within_column: usize = local % per_column;
            proof {
                arith::lemma_next_pow2(a.n_rows as nat);
            }
            let (layer_idx, node_idx) = tree_place(padded, within_column);
            return Some(
                LeanAirHashRowMeta {
                    kind: PoseidonCallKind::ColumnMerkle,
                    row_idx: None,
                    cell_idx: Some(cell_idx),
                    chunk_idx: None,
                    layer_idx: Some(layer_idx),
                    node_idx: Some(node_idx),
                },
            );
        }
        if self.column_root.contains(row) {
            let local: usize = row - self.column_root.start;
            let (layer_idx, node_idx) = tree_place(cells, local);
            return Some(
                LeanAirHashRowMeta {
                    kind: PoseidonCallKind::ColumnRoot,
                    row_idx: None,
                    cell_idx: None,
                    chunk_idx: None,
                    layer_idx: Some(layer_idx),
                    node_idx: Some(node_idx),
                },
            );
        }
        if self.final_root.contains(row) {
            return Some(
                LeanAirHashRowMeta {
                    kind: PoseidonCallKind::FinalRoot,
                    row_idx: None,
                    cell_idx: None,
                    chunk_idx: None,
                    layer_idx: None,
                    node_idx: None,
                },
            );
        }
        None
    }
}

/// A valid shape's cells divide the codeword as they divide the message.
pub proof fn lemma_divides(shape: LeanAirShape)
    requires
        shape.air().valid(),
    ensures
        (2 * pow2(shape.log_m as nat)) % (shape.cell_len_ext as nat) == 0,
        pow2(shape.log_m as nat) % (shape.cell_len_ext as nat) == 0,
{
    let a = shape.air();
    let _ = air_shape::lemma_shape(a);
    let d: int = shape.cell_len_ext as int;
    lemma_mod_multiples_basic(a.cells() as int, d);
    assert(a.cells() as int * d == 2 * pow2(shape.log_m as nat));
}

/// A number below `rows * width` taken apart.
proof fn lemma_block_parts(x: int, rows: int, width: int)
    requires
        0 <= x < rows * width,
        width > 0,
    ensures
        0 <= x / width < rows,
        0 <= x % width < width,
        x == (x / width) * width + x % width,
{
    lemma_fundamental_div_mod(x, width);
    lemma_mod_bound(x, width);
    lemma_div_pos_is_pos(x, width);
    lemma_mul_is_commutative(width, x / width);
    let q: int = x / width;
    let r: int = x % width;
    assert(q < rows) by (nonlinear_arith)
        requires
            x == q * width + r,
            0 <= r,
            x < rows * width,
            width > 0,
    ;
}

/// The row, the cell and the step of a row of a cell's hash.
proof fn lemma_cell_parts(a: air_shape::LeanAirShape, x: int)
    requires
        0 <= x < a.n_rows * a.cells() * a.chunks(),
        a.cells() >= 1,
        a.chunks() >= 1,
    ensures
        ({
            let per_row: int = a.cells() * a.chunks() as int;
            let within: int = x % per_row;
            &&& per_row > 0
            &&& per_row <= a.n_rows * a.cells() * a.chunks()
            &&& 0 <= x / per_row < a.n_rows
            &&& 0 <= within / (a.chunks() as int) < a.cells()
            &&& 0 <= within % (a.chunks() as int) < a.chunks()
            &&& x == air_schedule::cell_row(
                a,
                x / per_row,
                within / (a.chunks() as int),
                within % (a.chunks() as int),
            )
        }),
{
    let c: int = a.cells() as int;
    let h: int = a.chunks() as int;
    let n: int = a.n_rows as int;
    let per_row: int = c * h;
    assert(n * c * h == n * per_row) by (nonlinear_arith)
        requires
            per_row == c * h,
    ;
    assert(per_row > 0) by (nonlinear_arith)
        requires
            per_row == c * h,
            c >= 1,
            h >= 1,
    ;
    lemma_block_parts(x, n, per_row);
    assert(per_row <= n * per_row) by (nonlinear_arith)
        requires
            n >= 1,
            per_row > 0,
    ;
    let within: int = x % per_row;
    lemma_block_parts(within, c, h);
    let q: int = x / per_row;
    let i: int = within / h;
    let j: int = within % h;
    assert(q * per_row + (i * h + j) == (q * c + i) * h + j) by (nonlinear_arith)
        requires
            per_row == c * h,
    ;
}

/// The layer and the place in it of node `t` of a tree with `leaves` leaves.
fn tree_place(leaves: usize, t: usize) -> (r: (usize, usize))
    requires
        arith::is_power(leaves as nat),
        t < leaves - 1,
    ensures
        pow2((r.0 + 1) as nat) <= leaves,
        r.1 < leaves as nat / pow2((r.0 + 1) as nat),
        air_schedule::tree_node(leaves as nat, r.0 as nat, r.1 as int) == t,
{
    let ghost k = choose|k: nat| leaves as nat == #[trigger] pow2(k);
    let mut width: usize = leaves / 2;
    let mut left: usize = t;
    let mut layer: usize = 0;
    proof {
        lemma2_to64();
        if k > 0 {
            lemma_pow2_unfold(k);
        }
    }
    while left >= width
        invariant
            leaves as nat == pow2(k),
            layer < k,
            width == pow2((k - layer - 1) as nat),
            t < leaves - 1,
            left + leaves - 2 * width == t,
            layer + width <= leaves,
        decreases width,
    {
        proof {
            // Something is left below the layer, so it is not the root.
            lemma2_to64();
            if k - layer - 1 == 0 {
                assert(width == 1);
            }
            lemma_pow2_unfold((k - layer - 1) as nat);
        }
        left = left - width;
        width = width / 2;
        layer = layer + 1;
    }
    proof {
        lemma_pow2_unfold((k - layer) as nat);
        lemma_pow2_subtracts(layer as nat, k);
        lemma_pow2_subtracts((layer + 1) as nat, k);
        arith::lemma_pow2_monotone((layer + 1) as nat, k);
        assert((k - (layer + 1)) as nat == (k - layer - 1) as nat);
    }
    (layer, left)
}

/// A description names the kind that its row has.
proof fn lemma_described_kind(shape: LeanAirShape, meta: LeanAirHashRowMeta, row: int)
    requires
        shape.air().valid(),
        describes(shape, meta, row),
    ensures
        meta.kind == kind_at(shape, row),
        0 <= row < shape.air().total_rows(),
{
    let a = shape.air();
    let _ = air_shape::lemma_shape(a);
    arith::lemma_next_pow2(a.n_rows as nat);
    assert(a.n_rows as nat * a.cells() * a.chunks() >= 0) by (nonlinear_arith);
    assert(a.n_rows as nat * a.systematic_cells() >= 0) by (nonlinear_arith);
    assert(a.cells() * ((a.padded() - 1) as nat) >= 0) by (nonlinear_arith);
    match meta.kind {
        PoseidonCallKind::CellHash => {
            air_schedule::lemma_cell_row_bound(
                a,
                meta.row_idx->0 as int,
                meta.cell_idx->0 as int,
                meta.chunk_idx->0 as int,
            );
        },
        PoseidonCallKind::RowDigest => {
            air_schedule::lemma_block_bound(
                meta.row_idx->0 as int,
                a.n_rows as int,
                meta.cell_idx->0 as int,
                a.systematic_cells() as int,
            );
        },
        PoseidonCallKind::ColumnMerkle => {
            let k = choose|k: nat| a.padded() == #[trigger] pow2(k);
            let l: nat = meta.layer_idx->0 as nat;
            let i: int = meta.node_idx->0 as int;
            air_schedule::lemma_tree_node_bound(k, l, i);
            air_schedule::lemma_block_bound(
                meta.cell_idx->0 as int,
                a.cells() as int,
                air_schedule::tree_node(a.padded(), l, i),
                a.padded() - 1,
            );
        },
        PoseidonCallKind::ColumnRoot => {
            let k = choose|k: nat| a.cells() == #[trigger] pow2(k);
            air_schedule::lemma_tree_node_bound(k, meta.layer_idx->0 as nat, meta.node_idx->0 as int);
        },
        _ => {},
    }
}

/// A node of a tree has one layer and one place in it.
proof fn lemma_tree_node_unique(k: nat, l: nat, i: int, m: nat, j: int)
    requires
        pow2(l + 1) <= pow2(k),
        0 <= i < pow2(k) / pow2(l + 1),
        pow2(m + 1) <= pow2(k),
        0 <= j < pow2(k) / pow2(m + 1),
        air_schedule::tree_node(pow2(k), l, i) == air_schedule::tree_node(pow2(k), m, j),
    ensures
        l == m,
        i == j,
{
    air_schedule::lemma_tree_node_bound(k, l, i);
    air_schedule::lemma_tree_node_bound(k, m, j);
    if l < m {
        arith::lemma_pow2_monotone((k - m) as nat, (k - l - 1) as nat);
    }
    if m < l {
        arith::lemma_pow2_monotone((k - l) as nat, (k - m - 1) as nat);
    }
}

/// Blocks of one width do not overlap.
proof fn lemma_block_unique(q: int, i: int, p: int, j: int, width: int)
    requires
        0 <= i < width,
        0 <= j < width,
        q * width + i == p * width + j,
    ensures
        q == p,
        i == j,
{
    lemma_fundamental_div_mod_converse(q * width + i, width, q, i);
    lemma_fundamental_div_mod_converse(p * width + j, width, p, j);
}

/// A row of the hash table has one description: no two places of the construction share a row.
pub proof fn law_description_is_unique(
    shape: LeanAirShape,
    first: LeanAirHashRowMeta,
    second: LeanAirHashRowMeta,
    row: int,
)
    requires
        shape.air().valid(),
        describes(shape, first, row),
        describes(shape, second, row),
    ensures
        first == second,
{
    let a = shape.air();
    lemma_described_kind(shape, first, row);
    lemma_described_kind(shape, second, row);
    let _ = air_shape::lemma_shape(a);
    arith::lemma_next_pow2(a.n_rows as nat);
    match first.kind {
        PoseidonCallKind::CellHash => {
            let (r, c, j) = (first.row_idx->0 as int, first.cell_idx->0 as int, first.chunk_idx->0 as int);
            let (s, d, l) = (second.row_idx->0 as int, second.cell_idx->0 as int, second.chunk_idx->0 as int);
            lemma_block_unique(r * a.cells() + c, j, s * a.cells() + d, l, a.chunks() as int);
            lemma_block_unique(r, c, s, d, a.cells() as int);
        },
        PoseidonCallKind::RowDigest => {
            lemma_block_unique(
                first.row_idx->0 as int,
                first.cell_idx->0 as int,
                second.row_idx->0 as int,
                second.cell_idx->0 as int,
                a.systematic_cells() as int,
            );
        },
        PoseidonCallKind::ColumnMerkle => {
            let k = choose|k: nat| a.padded() == #[trigger] pow2(k);
            let (l, i) = (first.layer_idx->0 as nat, first.node_idx->0 as int);
            let (m, j) = (second.layer_idx->0 as nat, second.node_idx->0 as int);
            air_schedule::lemma_tree_node_bound(k, l, i);
            air_schedule::lemma_tree_node_bound(k, m, j);
            lemma_block_unique(
                first.cell_idx->0 as int,
                air_schedule::tree_node(a.padded(), l, i),
                second.cell_idx->0 as int,
                air_schedule::tree_node(a.padded(), m, j),
                a.padded() - 1,
            );
            lemma_tree_node_unique(k, l, i, m, j);
        },
        PoseidonCallKind::ColumnRoot => {
            let k = choose|k: nat| a.cells() == #[trigger] pow2(k);
            lemma_tree_node_unique(
                k,
                first.layer_idx->0 as nat,
                first.node_idx->0 as int,
                second.layer_idx->0 as nat,
                second.node_idx->0 as int,
            );
        },
        _ => {},
    }
}

/// The rows of the parity table.
#[derive(Clone, Copy, Debug, PartialEq, Eq, Structural)]
pub struct RowParitySchedule {
    pub shape: LeanAirShape,
    pub active_rows: usize,
    pub padded_rows: usize,
}

/// The term that a row of the parity table adds.
#[derive(Clone, Copy, Debug, PartialEq, Eq, Structural)]
pub struct RowParityRowMeta {
    pub row_idx: usize,
    pub term_idx: usize,
    pub is_first: bool,
    pub is_last: bool,
}

impl RowParitySchedule {
    /// Whether the schedule is the one of its shape.
    pub open spec fn wf(self) -> bool {
        &&& self.active_rows == self.shape.n_rows * pow2(self.shape.log_m as nat)
        &&& self.padded_rows == arith::next_pow2((self.active_rows + 1) as nat)
    }

    /// The schedule of a shape: one row for every element of every blob.
    pub fn new(shape: LeanAirShape) -> (r: RowParitySchedule)
        requires
            pow2(shape.log_m as nat) <= usize::MAX,
            shape.n_rows * pow2(shape.log_m as nat) + 1 <= usize::MAX,
            arith::next_pow2((shape.n_rows * pow2(shape.log_m as nat) + 1) as nat) <= usize::MAX,
        ensures
            r.shape == shape,
            r.wf(),
    {
        proof {
            assert(shape.n_rows * pow2(shape.log_m as nat) >= 0) by (nonlinear_arith);
        }
        let active_rows: usize = shape.n_rows * shape.message_len_ext();
        RowParitySchedule { shape, active_rows, padded_rows: padded_table_rows(active_rows) }
    }

    /// The term that a row adds, none where it is padding.
    pub fn row_meta(self, row: usize) -> (r: Option<RowParityRowMeta>)
        requires
            self.wf(),
            pow2(self.shape.log_m as nat) <= usize::MAX,
        ensures
            r is Some <==> row < self.active_rows,
            r matches Some(meta) ==> {
                &&& meta.row_idx < self.shape.n_rows
                &&& meta.term_idx < pow2(self.shape.log_m as nat)
                &&& row == meta.row_idx * pow2(self.shape.log_m as nat) + meta.term_idx
                &&& (meta.is_first <==> meta.term_idx == 0)
                &&& (meta.is_last <==> meta.term_idx + 1 == pow2(self.shape.log_m as nat))
            },
    {
        if row >= self.active_rows {
            return None;
        }
        let len: usize = self.shape.message_len_ext();
        proof {
            lemma_pow2_pos(self.shape.log_m as nat);
            lemma_block_parts(row as int, self.shape.n_rows as int, len as int);
        }
        let term_idx: usize = row % len;
        Some(
            RowParityRowMeta {
                row_idx: row / len,
                term_idx,
                is_first: term_idx == 0,
                is_last: term_idx == len - 1,
            },
        )
    }
}

/// The schedules of both tables.
#[derive(Clone, Copy, Debug, PartialEq, Eq, Structural)]
pub struct LeanAirTablePlan {
    pub hash: LeanAirHashSchedule,
    pub row_parity: RowParitySchedule,
}

impl LeanAirTablePlan {
    /// The schedules of a shape.
    pub fn new(shape: LeanAirShape) -> (r: LeanAirTablePlan)
        requires
            shape.air().valid(),
            shape.air().fits(),
            shape.n_rows * pow2(shape.log_m as nat) + 1 <= usize::MAX,
            arith::next_pow2((shape.n_rows * pow2(shape.log_m as nat) + 1) as nat) <= usize::MAX,
        ensures
            r.hash.shape == shape,
            r.hash.wf(),
            r.row_parity.shape == shape,
            r.row_parity.wf(),
    {
        proof {
            air_schedule::lemma_row_products_valid(shape.air());
        }
        LeanAirTablePlan { hash: LeanAirHashSchedule::new(shape), row_parity: RowParitySchedule::new(shape) }
    }
}

} // verus!
