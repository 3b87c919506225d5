//! Building the commitment, stage by stage.
use super::commit;
use super::commit::LeanAirCommitments;
use super::schedule;
use super::shape;
use super::shape::LeanAirShape;
use crate::arith;
use crate::field::F;
use crate::hashing;
use crate::poseidon::{DedicatedPoseidonCols, PoseidonConstants};
use vstd::prelude::*;

verus! {

/// The cells of one row: their digests are added to `digests` and their hash rows to `rows`.
fn hash_row_cells(
    k: &PoseidonConstants,
    shape: LeanAirShape,
    data: &Vec<Vec<F>>,
    row: usize,
    digests: &mut Vec<[F; 8]>,
    rows: &mut Vec<DedicatedPoseidonCols<F>>,
)
    requires
        shape.valid(),
        shape.fits_rows(),
        row < shape.n_rows,
        data@.len() == shape.n_rows,
        data@[row as int]@.len() == 5 * shape.codeword_len(),
        old(digests)@.len() == row * shape.cells(),
        forall|r: int, c: int|
            0 <= r < row && 0 <= c < shape.cells() ==> (#[trigger] old(digests)@[r * shape.cells() + c])@
                == commit::digest_of(*k, shape, commit::data_views(data@), r, c),
        old(rows)@.len() == row * shape.cells() * shape.chunks(),
        commit::rows_done(*k, shape, commit::data_views(data@), old(rows)@),
    ensures
        final(digests)@.len() == (row + 1) * shape.cells(),
        forall|r: int, c: int|
            0 <= r < row + 1 && 0 <= c < shape.cells() ==> (#[trigger] final(digests)@[r * shape.cells() + c])@
                == commit::digest_of(*k, shape, commit::data_views(data@), r, c),
        final(rows)@.len() == (row + 1) * shape.cells() * shape.chunks(),
        commit::rows_done(*k, shape, commit::data_views(data@), final(rows)@),
{
    let ghost d = commit::data_views(data@);
    let n_cells: usize = shape.num_cells();
    let base: usize = shape.cell_len_base();
    let len: usize = data[row].len();
    let ghost w: nat = shape.cells();
    let ghost h: nat = shape.chunks();
    proof {
        let _ = shape::lemma_shape(shape);
        assert(row * w + 0 == row * w);
    }
    let mut cell: usize = 0;
    while cell < n_cells
        invariant
            shape.valid(),
            shape.fits_rows(),
            row < shape.n_rows,
            data@.len() == shape.n_rows,
            data@[row as int]@.len() == 5 * shape.codeword_len() == len,
            d == commit::data_views(data@),
            n_cells == w,
            w == shape.cells(),
            h == shape.chunks(),
            base == shape.cell_base(),
            cell <= n_cells,
            digests@.len() == row * w + cell,
            forall|r: int, c: int|
                0 <= c < w && ((0 <= r < row) || (r == row && c < cell)) ==> (#[trigger] digests@[r * w + c])@
                    == commit::digest_of(*k, shape, d, r, c),
            rows@.len() == (row * w + cell) * h,
            commit::rows_done(*k, shape, d, rows@),
        decreases n_cells - cell,
    {
        proof {
            let _ = shape::lemma_shape(shape);
            assert(cell * base + base <= 5 * shape.codeword_len() && 0 <= cell * base) by (nonlinear_arith)
                requires
                    cell + 1 <= w,
                    base == 5 * shape.cell_len_ext,
                    w * shape.cell_len_ext == shape.codeword_len(),
            ;
        }
        let start: usize = cell * base;
        let ghost before = rows@;
        let ghost digests0 = digests@;
        assert(d[row as int] == data@[row as int]@);
        let digest = hashing::hash_cell_into(k, &data[row], start, base, rows);
        digests.push(digest);
        proof {
            let f = |j: int| hashing::cell_input(*k, commit::cell_of(shape, d, row as int, cell as int), j as nat);
            assert forall|j: int| 0 <= j < h implies #[trigger] f(j) == commit::row_input(*k, shape, d, before.len() + j) by {
                commit::lemma_input_cell(*k, shape, d, row as int, cell as int, j);
            }
            assert(hashing::cell_steps(base as nat) == h);
            commit::lemma_rows_extended(*k, shape, d, before, rows@, h, f);
            assert((row * w + cell) * h + h == (row * w + (cell + 1)) * h) by (nonlinear_arith);
            assert forall|r: int, c: int| 0 <= c < w && ((0 <= r < row) || (r == row && c < cell + 1)) implies (
            #[trigger] digests@[r * w + c])@ == commit::digest_of(*k, shape, d, r, c) by {
                if r < row {
                    schedule::lemma_block_bound(r, row as int, c, w as int);
                    assert(digests@[r * w + c] == digests0[r * w + c]);
                } else if c < cell {
                    assert(0 <= row * w) by (nonlinear_arith)
                        requires
                            w >= 0,
                            row >= 0,
                    ;
                    assert(digests@[r * w + c] == digests0[r * w + c]);
                }
            }
        }
        cell = cell + 1;
    }
    proof {
        assert(row * w + w == (row + 1) * w) by (nonlinear_arith);
    }
}

/// Whether digests are those of all cells, row by row.
pub open spec fn cells_digested(
    k: PoseidonConstants,
    shape: LeanAirShape,
    data: Seq<Seq<F>>,
    digests: Seq<[F; 8]>,
) -> bool {
    &&& digests.len() == shape.n_rows * shape.cells()
    &&& forall|r: int, c: int|
        0 <= r < shape.n_rows && 0 <= c < shape.cells() ==> (#[trigger] digests[r * shape.cells() + c])@
            == commit::digest_of(k, shape, data, r, c)
}

/// The digests of all cells, and the hash rows of the cells.
fn hash_cells(k: &PoseidonConstants, shape: LeanAirShape, data: &Vec<Vec<F>>) -> (r: (
    Vec<[F; 8]>,
    Vec<DedicatedPoseidonCols<F>>,
))
    requires
        shape.valid(),
        shape.fits_rows(),
        data@.len() == shape.n_rows,
        forall|i: int| 0 <= i < shape.n_rows ==> (#[trigger] data@[i])@.len() == 5 * shape.codeword_len(),
    ensures
        cells_digested(*k, shape, commit::data_views(data@), r.0@),
        r.1@.len() == shape.systematic_start(),
        commit::rows_done(*k, shape, commit::data_views(data@), r.1@),
{
    let ghost d = commit::data_views(data@);
    let ghost w: nat = shape.cells();
    let ghost h: nat = shape.chunks();
    let n_rows: usize = shape.n_rows;
    proof {
        assert(0 * w == 0);
        assert(0 * w * h == 0);
    }
    let mut rows: Vec<DedicatedPoseidonCols<F>> = Vec::new();
    let mut digests: Vec<[F; 8]> = Vec::new();
    let mut row: usize = 0;
    while row < n_rows
        invariant
            shape.valid(),
            shape.fits_rows(),
            n_rows == shape.n_rows,
            row <= n_rows,
            w == shape.cells(),
            h == shape.chunks(),
            d == commit::data_views(data@),
            data@.len() == shape.n_rows,
            forall|i: int| 0 <= i < shape.n_rows ==> (#[trigger] data@[i])@.len() == 5 * shape.codeword_len(),
            digests@.len() == row * w,
            forall|r: int, c: int|
                0 <= r < row && 0 <= c < w ==> (#[trigger] digests@[r * w + c])@ == commit::digest_of(*k, shape, d, r, c),
            rows@.len() == row * w * h,
            commit::rows_done(*k, shape, d, rows@),
        decreases n_rows - row,
    {
        hash_row_cells(k, shape, data, row, &mut digests, &mut rows);
        row = row + 1;
    }
    (digests, rows)
}

/// The digests of the rows, each the chain over the digests of its first half.
fn systematic_row_digests(
    k: &PoseidonConstants,
    shape: LeanAirShape,
    digests: &Vec<[F; 8]>,
    rows: &mut Vec<DedicatedPoseidonCols<F>>,
    Ghost(d): Ghost<Seq<Seq<F>>>,
) -> (row_digests: Vec<[F; 8]>)
    requires
        shape.valid(),
        shape.fits_rows(),
        cells_digested(*k, shape, d, digests@),
        old(rows)@.len() == shape.systematic_start(),
        commit::rows_done(*k, shape, d, old(rows)@),
    ensures
        hashing::digest_views(row_digests@) == commit::row_digest_list(*k, shape, d),
        final(rows)@.len() == shape.row_root_start(),
        commit::rows_done(*k, shape, d, final(rows)@),
{
    let ghost w: nat = shape.cells();
    proof {
        let _ = shape::lemma_shape(shape);
        schedule::lemma_row_products(shape);
    }
    let n_rows: usize = shape.n_rows;
    let n_cells: usize = shape.num_cells();
    let n_systematic: usize = shape.num_systematic_cells();
    let n_digests: usize = digests.len();
    let mut row_digests: Vec<[F; 8]> = Vec::new();
    let mut row: usize = 0;
    while row < n_rows
        invariant
            shape.valid(),
            shape.fits_rows(),
            n_rows == shape.n_rows,
            row <= n_rows,
            w == shape.cells(),
            n_cells == w,
            n_systematic == shape.systematic_cells(),
            n_systematic <= n_cells,
            digests@.len() == n_rows * w,
            n_digests == n_rows * w,
            forall|r: int, c: int|
                0 <= r < n_rows && 0 <= c < w ==> (#[trigger] digests@[r * w + c])@ == commit::digest_of(*k, shape, d, r, c),
            row_digests@.len() == row,
            forall|r: int|
                0 <= r < row ==> (#[trigger] row_digests@[r])@ == hashing::chain_digest(
                    *k,
                    commit::systematic_digests(*k, shape, d, r),
                ),
            rows@.len() == shape.systematic_start() + row * n_systematic,
            commit::rows_done(*k, shape, d, rows@),
        decreases n_rows - row,
    {
        let mut chain: Vec<[F; 8]> = Vec::new();
        let mut cell: usize = 0;
        while cell < n_systematic
            invariant
                row < n_rows,
                n_rows == shape.n_rows,
                w == shape.cells(),
                n_cells == w,
                n_systematic <= n_cells,
                cell <= n_systematic,
                digests@.len() == n_rows * w,
            n_digests == n_rows * w,
                forall|r: int, c: int|
                    0 <= r < n_rows && 0 <= c < w ==> (#[trigger] digests@[r * w + c])@ == commit::digest_of(
                        *k,
                        shape,
                        d,
                        r,
                        c,
                    ),
                chain@.len() == cell,
                forall|c: int| 0 <= c < cell ==> (#[trigger] chain@[c])@ == commit::digest_of(*k, shape, d, row as int, c),
            decreases n_systematic - cell,
        {
            proof {
                schedule::lemma_block_bound(row as int, n_rows as int, cell as int, w as int);
            }
            chain.push(digests[row * n_cells + cell]);
            cell = cell + 1;
        }
        let ghost before = rows@;
        let digest = hashing::chain_hash_digests_into(k, &chain, rows);
        row_digests.push(digest);
        proof {
            let views = hashing::digest_views(chain@);
            assert(views =~= commit::systematic_digests(*k, shape, d, row as int));
            let f = |j: int| hashing::chain_input(*k, views, j as nat);
            assert forall|j: int| 0 <= j < n_systematic implies #[trigger] f(j) == commit::row_input(
                *k,
                shape,
                d,
                before.len() + j,
            ) by {
                commit::lemma_input_systematic(*k, shape, d, row as int, j);
            }
            commit::lemma_rows_extended(*k, shape, d, before, rows@, n_systematic as nat, f);
            assert(row * n_systematic + n_systematic == (row + 1) * n_systematic) by (nonlinear_arith);
        }
        row = row + 1;
    }
    assert(hashing::digest_views(row_digests@) =~= commit::row_digest_list(*k, shape, d));
    row_digests
}

/// The roots of the trees over the columns of cells.
fn column_merkle_roots(
    k: &PoseidonConstants,
    shape: LeanAirShape,
    digests: &Vec<[F; 8]>,
    rows: &mut Vec<DedicatedPoseidonCols<F>>,
    Ghost(d): Ghost<Seq<Seq<F>>>,
) -> (column_roots: Vec<[F; 8]>)
    requires
        shape.valid(),
        shape.fits_rows(),
        cells_digested(*k, shape, d, digests@),
        old(rows)@.len() == shape.column_merkle_start(),
        commit::rows_done(*k, shape, d, old(rows)@),
    ensures
        hashing::digest_views(column_roots@) == commit::column_root_list(*k, shape, d),
        final(rows)@.len() == shape.column_root_start(),
        commit::rows_done(*k, shape, d, final(rows)@),
{
    let ghost w: nat = shape.cells();
    proof {
        schedule::lemma_row_products_valid(shape);
        arith::lemma_next_pow2(shape.n_rows as nat);
    }
    let n_rows: usize = shape.n_rows;
    let n_cells: usize = shape.num_cells();
    let padded: usize = shape.padded_rows();
    let n_digests: usize = digests.len();
    assert(0 * ((padded - 1) as nat) == 0);
    let mut column_roots: Vec<[F; 8]> = Vec::new();
    let mut cell: usize = 0;
    while cell < n_cells
        invariant
            shape.valid(),
            shape.fits_rows(),
            n_rows == shape.n_rows,
            w == shape.cells(),
            n_cells == w,
            padded == shape.padded(),
            n_rows <= padded,
            arith::is_power(padded as nat),
            2 * padded <= usize::MAX,
            cell <= n_cells,
            digests@.len() == n_rows * w,
            n_digests == n_rows * w,
            forall|r: int, c: int|
                0 <= r < n_rows && 0 <= c < w ==> (#[trigger] digests@[r * w + c])@ == commit::digest_of(*k, shape, d, r, c),
            column_roots@.len() == cell,
            forall|c: int|
                0 <= c < cell ==> (#[trigger] column_roots@[c])@ == hashing::tree_root(
                    *k,
                    commit::column_leaves(*k, shape, d, c),
                ),
            rows@.len() == shape.column_merkle_start() + cell * ((padded - 1) as nat),
            commit::rows_done(*k, shape, d, rows@),
        decreases n_cells - cell,
    {
        let mut leaves: Vec<[F; 8]> = Vec::new();
        let mut r: usize = 0;
        while r < padded
            invariant
                cell < n_cells,
                n_rows == shape.n_rows,
                w == shape.cells(),
                n_cells == w,
                padded == shape.padded(),
                n_rows <= padded,
                r <= padded,
                digests@.len() == n_rows * w,
            n_digests == n_rows * w,
                forall|r: int, c: int|
                    0 <= r < n_rows && 0 <= c < w ==> (#[trigger] digests@[r * w + c])@ == commit::digest_of(
                        *k,
                        shape,
                        d,
                        r,
                        c,
                    ),
                leaves@.len() == r,
                forall|i: int|
                    0 <= i < r ==> (#[trigger] leaves@[i])@ == commit::column_leaves(*k, shape, d, cell as int)[i],
            decreases padded - r,
        {
            if r < n_rows {
                proof {
                    schedule::lemma_block_bound(r as int, n_rows as int, cell as int, w as int);
                }
                leaves.push(digests[r * n_cells + cell]);
            } else {
                let zero: [F; 8] = [F::zero(); 8];
                assert(zero@ =~= hashing::zero_digest());
                leaves.push(zero);
            }
            r = r + 1;
        }
        let ghost before = rows@;
        let root = hashing::merkle_root_from_digests_into(k, &leaves, rows);
        column_roots.push(root);
        proof {
            let views = hashing::digest_views(leaves@);
            assert(views =~= commit::column_leaves(*k, shape, d, cell as int));
            let f = |t: int| hashing::tree_input(*k, views, t as nat);
            let n: nat = (padded - 1) as nat;
            assert forall|j: int| 0 <= j < n implies #[trigger] f(j) == commit::row_input(*k, shape, d, before.len() + j) by {
                commit::lemma_input_merkle(*k, shape, d, cell as int, j);
            }
            commit::lemma_rows_extended(*k, shape, d, before, rows@, n, f);
            assert(cell * n + n == (cell + 1) * n) by (nonlinear_arith);
        }
        cell = cell + 1;
    }
    assert(hashing::digest_views(column_roots@) =~= commit::column_root_list(*k, shape, d));
    column_roots
}

/// The stages of building the commitment.
#[derive(Clone, Copy, Debug, PartialEq, Eq, Structural)]
pub enum BuildStage {
    HashCells,
    SystematicRowDigests,
    RowCommitmentRoot,
    ColumnMerkleRoots,
    ColumnCommitmentRoot,
    FinalRoot,
    Done,
}

impl BuildStage {
    /// The number of stages before this one.
    pub open spec fn index(self) -> int {
        match self {
            BuildStage::HashCells => 0,
            BuildStage::SystematicRowDigests => 1,
            BuildStage::RowCommitmentRoot => 2,
            BuildStage::ColumnMerkleRoots => 3,
            BuildStage::ColumnCommitmentRoot => 4,
            BuildStage::FinalRoot => 5,
            BuildStage::Done => 6,
        }
    }

    /// The number of hash rows before this stage.
    pub open spec fn rows_before(self, shape: LeanAirShape) -> int {
        match self {
            BuildStage::HashCells => 0,
            BuildStage::SystematicRowDigests => shape.systematic_start() as int,
            BuildStage::RowCommitmentRoot => shape.row_root_start() as int,
            BuildStage::ColumnMerkleRoots => shape.column_merkle_start() as int,
            BuildStage::ColumnCommitmentRoot => shape.column_root_start() as int,
            BuildStage::FinalRoot => shape.final_row(),
            BuildStage::Done => shape.total_rows(),
        }
    }

    /// The name of a stage, none at the end.
    pub open spec fn name_spec(self) -> Option<&'static str> {
        match self {
            BuildStage::HashCells => Some("build/hash_cells"),
            BuildStage::SystematicRowDigests => Some("build/systematic_row_digests"),
            BuildStage::RowCommitmentRoot => Some("build/row_commitment_root"),
            BuildStage::ColumnMerkleRoots => Some("build/column_merkle_roots"),
            BuildStage::ColumnCommitmentRoot => Some("build/column_commitment_root"),
            BuildStage::FinalRoot => Some("build/final_root"),
            BuildStage::Done => None,
        }
    }

    /// The name of a stage, none at the end.
    pub fn name(self) -> (r: Option<&'static str>)
        ensures
            r == self.name_spec(),
    {
        match self {
            BuildStage::HashCells => Some("build/hash_cells"),
            BuildStage::SystematicRowDigests => Some("build/systematic_row_digests"),
            BuildStage::RowCommitmentRoot => Some("build/row_commitment_root"),
            BuildStage::ColumnMerkleRoots => Some("build/column_merkle_roots"),
            BuildStage::ColumnCommitmentRoot => Some("build/column_commitment_root"),
            BuildStage::FinalRoot => Some("build/final_root"),
            BuildStage::Done => None,
        }
    }
}

/// A commitment that is being built, with its hash rows so far. Each stage is one call of
/// [`CommitmentBuild::advance`].
#[derive(Clone, Debug)]
pub struct CommitmentBuild {
    pub shape: LeanAirShape,
    pub stage: BuildStage,
    pub cell_digests: Vec<[F; 8]>,
    pub rows: Vec<DedicatedPoseidonCols<F>>,
    pub commitments: LeanAirCommitments,
}

impl CommitmentBuild {
    /// Whether all stages before the present one have done their part for the data.
    pub open spec fn wf(self, k: PoseidonConstants, data: Seq<Seq<F>>) -> bool {
        let at = self.stage.index();
        let done = self.commitments;
        &&& self.rows@.len() == self.stage.rows_before(self.shape)
        &&& commit::rows_done(k, self.shape, data, self.rows@)
        &&& at > 0 ==> cells_digested(k, self.shape, data, self.cell_digests@)
        &&& at > 1 ==> hashing::digest_views(done.row_digests@) == commit::row_digest_list(k, self.shape, data)
        &&& at > 2 ==> done.row_commitment_root@ == commit::row_root_spec(k, self.shape, data)
        &&& at > 3 ==> hashing::digest_views(done.column_roots@) == commit::column_root_list(k, self.shape, data)
        &&& at > 4 ==> done.column_commitment_root@ == commit::column_root_spec(k, self.shape, data)
        &&& at > 5 ==> done.commitment_root@ == commit::commitment_spec(k, self.shape, data)
    }

    /// A commitment of which nothing is built.
    pub fn new(shape: LeanAirShape) -> (r: CommitmentBuild)
        ensures
            r.shape == shape,
            r.stage is HashCells,
            forall|k: PoseidonConstants, data: Seq<Seq<F>>| #[trigger] r.wf(k, data),
    {
        let zero: [F; 8] = [F::zero(); 8];
        CommitmentBuild {
            shape,
            stage: BuildStage::HashCells,
            cell_digests: Vec::new(),
            rows: Vec::new(),
            commitments: LeanAirCommitments {
                row_commitment_root: zero,
                column_commitment_root: zero,
                commitment_root: zero,
                row_digests: Vec::new(),
                column_roots: Vec::new(),
            },
        }
    }

    /// Goes through one stage.
    pub fn advance(&mut self, k: &PoseidonConstants, data: &Vec<Vec<F>>)
        requires
            old(self).shape.valid(),
            old(self).shape.fits_rows(),
            data@.len() == old(self).shape.n_rows,
            forall|i: int|
                0 <= i < data@.len() ==> (#[trigger] data@[i])@.len() == 5 * old(self).shape.codeword_len(),
            old(self).wf(*k, commit::data_views(data@)),
        ensures
            final(self).shape == old(self).shape,
            final(self).wf(*k, commit::data_views(data@)),
            old(self).stage is Done ==> final(self).stage is Done,
            !(old(self).stage is Done) ==> final(self).stage.index() == old(self).stage.index() + 1,
    {
        let shape = self.shape;
        let ghost d = commit::data_views(data@);
        proof {
            schedule::lemma_row_products_valid(shape);
            schedule::lemma_row_products(shape);
        }
        match self.stage {
            BuildStage::HashCells => {
                let (digests, rows) = hash_cells(k, shape, data);
                self.cell_digests = digests;
                self.rows = rows;
                self.stage = BuildStage::SystematicRowDigests;
            },
            BuildStage::SystematicRowDigests => {
                let digests = systematic_row_digests(k, shape, &self.cell_digests, &mut self.rows, Ghost(d));
                self.commitments.row_digests = digests;
                self.stage = BuildStage::RowCommitmentRoot;
            },
            BuildStage::RowCommitmentRoot => {
                let ghost before = self.rows@;
                let root = hashing::chain_hash_digests_into(k, &self.commitments.row_digests, &mut self.rows);
                proof {
                    let views = commit::row_digest_list(*k, shape, d);
                    assert(hashing::digest_views(self.commitments.row_digests@).len() == views.len());
                    let f = |j: int| hashing::chain_input(*k, views, j as nat);
                    assert forall|j: int| 0 <= j < shape.n_rows implies #[trigger] f(j) == commit::row_input(
                        *k,
                        shape,
                        d,
                        before.len() + j,
                    ) by {
                        commit::lemma_input_row_root(*k, shape, d, j);
                    }
                    commit::lemma_rows_extended(*k, shape, d, before, self.rows@, shape.n_rows as nat, f);
                }
                self.commitments.row_commitment_root = root;
                self.stage = BuildStage::ColumnMerkleRoots;
            },
            BuildStage::ColumnMerkleRoots => {
                let roots = column_merkle_roots(k, shape, &self.cell_digests, &mut self.rows, Ghost(d));
                self.commitments.column_roots = roots;
                self.stage = BuildStage::ColumnCommitmentRoot;
            },
            BuildStage::ColumnCommitmentRoot => {
                let ghost before = self.rows@;
                let ghost views = commit::column_root_list(*k, shape, d);
                assert(hashing::digest_views(self.commitments.column_roots@).len() == views.len());
                let root = hashing::merkle_root_from_digests_into(k, &self.commitments.column_roots, &mut self.rows);
                proof {
                    let f = |t: int| hashing::tree_input(*k, views, t as nat);
                    let n: nat = (shape.cells() - 1) as nat;
                    assert forall|j: int| 0 <= j < n implies #[trigger] f(j) == commit::row_input(
                        *k,
                        shape,
                        d,
                        before.len() + j,
                    ) by {
                        commit::lemma_input_column_root(*k, shape, d, j);
                    }
                    commit::lemma_rows_extended(*k, shape, d, before, self.rows@, n, f);
                }
                self.commitments.column_commitment_root = root;
                self.stage = BuildStage::FinalRoot;
            },
            BuildStage::FinalRoot => {
                let ghost before = self.rows@;
                let left = self.commitments.row_commitment_root;
                let right = self.commitments.column_commitment_root;
                let root = hashing::compress_pair_to_row(k, &left, &right, &mut self.rows);
                proof {
                    commit::lemma_input_final(*k, shape, d);
                    assert forall|i: int| 0 <= i < self.rows@.len() implies hashing::row_is(
                        *k,
                        #[trigger] self.rows@[i],
                        commit::row_input(*k, shape, d, i),
                    ) by {
                        if i < before.len() {
                            assert(self.rows@[i] == before[i]);
                        }
                    }
                }
                self.commitments.commitment_root = root;
                self.stage = BuildStage::Done;
            },
            BuildStage::Done => {},
        }
    }
}

/// Builds the commitment and all its hash rows.
pub fn build_dedicated_commitments(
    k: &PoseidonConstants,
    shape: LeanAirShape,
    data: &Vec<Vec<F>>,
) -> (r: (LeanAirCommitments, Vec<DedicatedPoseidonCols<F>>))
    requires
        shape.valid(),
        shape.fits_rows(),
        data@.len() == shape.n_rows,
        forall|i: int| 0 <= i < shape.n_rows ==> (#[trigger] data@[i])@.len() == 5 * shape.codeword_len(),
    ensures
        r.0.commits(*k, shape, commit::data_views(data@)),
        r.1@.len() == shape.total_rows(),
        commit::rows_done(*k, shape, commit::data_views(data@), r.1@),
{
    let mut build = CommitmentBuild::new(shape);
    while build.stage != BuildStage::Done
        invariant
            shape.valid(),
            shape.fits_rows(),
            build.shape == shape,
            data@.len() == shape.n_rows,
            forall|i: int| 0 <= i < shape.n_rows ==> (#[trigger] data@[i])@.len() == 5 * shape.codeword_len(),
            build.wf(*k, commit::data_views(data@)),
        decreases 6 - build.stage.index(),
    {
        build.advance(k, data);
    }
    (build.commitments, build.rows)
}

} // verus!
