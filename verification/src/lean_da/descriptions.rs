//! What the description of a hash row says of its digest.
use super::schedule;
use super::schedule::{LeanAirHashRowMeta, PoseidonCallKind};
use super::shape::LeanAirShape;
use crate::arith;
use crate::field::F;
use crate::hashing;
use crate::lean_air::commit;
use crate::lean_air::digests;
use crate::lean_air::links;
use crate::lean_air::schedule as air_schedule;
use crate::lean_air::shape as air_shape;
use crate::poseidon;
use crate::poseidon::PoseidonConstants;
use vstd::arithmetic::power2::*;
use vstd::prelude::*;

verus! {

/// The description of a row tells what its digest is of: of the first elements of a cell, of the first
/// cells of a codeword, of the first codewords, of the rows below a node of a column, of the columns below
/// a node of their tree, or of everything. Chunks, cells and codewords are counted up to the one that is
/// named; a node is named by its layer, of which the lowest takes pairs of leaves, and its place in it.
pub proof fn law_description_tells_digest(
    k: PoseidonConstants,
    shape: LeanAirShape,
    data: Seq<Seq<F>>,
    meta: LeanAirHashRowMeta,
    row: int,
)
    requires
        shape.air().valid(),
        links::full_rows(shape.air(), data),
        schedule::describes(shape, meta, row),
    ensures
        ({
            let a = shape.air();
            let digest = poseidon::compress_spec(k, commit::row_input(k, a, data, row));
            match meta.kind {
                PoseidonCallKind::CellHash => digest == hashing::cell_digest(
                    k,
                    commit::cell_of(a, data, meta.row_idx->0 as int, meta.cell_idx->0 as int).take(
                        16 + 8 * meta.chunk_idx->0,
                    ),
                ),
                PoseidonCallKind::RowDigest => digest == hashing::chain_digest(
                    k,
                    commit::systematic_digests(k, a, data, meta.row_idx->0 as int).take(meta.cell_idx->0 + 1),
                ),
                PoseidonCallKind::RowRoot => digest == hashing::chain_digest(
                    k,
                    commit::row_digest_list(k, a, data).take(meta.row_idx->0 + 1),
                ),
                PoseidonCallKind::ColumnMerkle => digest == hashing::tree_root(
                    k,
                    commit::column_leaves(k, a, data, meta.cell_idx->0 as int).subrange(
                        meta.node_idx->0 * pow2((meta.layer_idx->0 + 1) as nat),
                        (meta.node_idx->0 + 1) * pow2((meta.layer_idx->0 + 1) as nat),
                    ),
                ),
                PoseidonCallKind::ColumnRoot => digest == hashing::tree_root(
                    k,
                    commit::column_root_list(k, a, data).subrange(
                        meta.node_idx->0 * pow2((meta.layer_idx->0 + 1) as nat),
                        (meta.node_idx->0 + 1) * pow2((meta.layer_idx->0 + 1) as nat),
                    ),
                ),
                PoseidonCallKind::FinalRoot => digest == commit::commitment_spec(k, a, data),
            }
        }),
{
    let a = shape.air();
    let _ = air_shape::lemma_shape(a);
    arith::lemma_next_pow2(a.n_rows as nat);
    match meta.kind {
        PoseidonCallKind::CellHash => {
            let (r, c, j) = (meta.row_idx->0 as int, meta.cell_idx->0 as int, meta.chunk_idx->0 as int);
            commit::lemma_input_cell(k, a, data, r, c, j);
            let cell = commit::cell_of(a, data, r, c);
            assert(cell.len() == a.cell_base()) by {
                let b: int = a.cell_base() as int;
                assert(data[r].len() == 5 * a.codeword_len());
                assert(c * b + b <= data[r].len() && 0 <= c * b) by (nonlinear_arith)
                    requires
                        0 <= c < a.cells(),
                        b == a.cell_len_ext * 5,
                        data[r].len() == 5 * (a.cells() * a.cell_len_ext),
                ;
            }
            digests::law_cell_step_is_digest_of_part(k, cell, j as nat);
        },
        PoseidonCallKind::RowDigest => {
            let (r, c) = (meta.row_idx->0 as int, meta.cell_idx->0 as int);
            commit::lemma_input_systematic(k, a, data, r, c);
            digests::law_chain_step_is_digest_of_part(k, commit::systematic_digests(k, a, data, r), c as nat);
        },
        PoseidonCallKind::RowRoot => {
            let r: int = meta.row_idx->0 as int;
            commit::lemma_input_row_root(k, a, data, r);
            digests::law_chain_step_is_digest_of_part(k, commit::row_digest_list(k, a, data), r as nat);
        },
        PoseidonCallKind::ColumnMerkle => {
            let (c, l, i) = (meta.cell_idx->0 as int, meta.layer_idx->0 as nat, meta.node_idx->0 as int);
            let height: nat = arith::log2_ceil_spec(a.n_rows as nat);
            lemma_layer(height, l, i);
            let leaves = commit::column_leaves(k, a, data, c);
            digests::law_node_is_root_of_its_leaves(k, leaves, height, l, i);
            commit::lemma_input_merkle(k, a, data, c, air_schedule::tree_node(a.padded(), l, i));
        },
        PoseidonCallKind::ColumnRoot => {
            let (l, i) = (meta.layer_idx->0 as nat, meta.node_idx->0 as int);
            let log_cell = air_shape::lemma_shape(a);
            let height: nat = (a.log_m - log_cell + 1) as nat;
            lemma_layer(height, l, i);
            let roots = commit::column_root_list(k, a, data);
            digests::law_node_is_root_of_its_leaves(k, roots, height, l, i);
            commit::lemma_input_column_root(k, a, data, air_schedule::tree_node(a.cells(), l, i));
        },
        PoseidonCallKind::FinalRoot => {
            commit::lemma_input_final(k, a, data);
        },
    }
}

/// The layers of a tree and the nodes in them.
proof fn lemma_layer(height: nat, layer: nat, i: int)
    requires
        pow2(layer + 1) <= pow2(height),
        i < pow2(height) / pow2(layer + 1),
    ensures
        layer < height,
        i < pow2((height - layer - 1) as nat),
{
    if layer >= height {
        lemma_pow2_strictly_increases(height, layer + 1);
    }
    lemma_pow2_subtracts(layer + 1, height);
}

} // verus!
