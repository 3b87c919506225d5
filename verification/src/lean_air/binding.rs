//! What the commitment says of the data.
use super::commit;
use super::schedule;
use super::shape;
use super::shape::LeanAirShape;
use crate::field::F;
use crate::hashing;
use crate::poseidon;
use crate::poseidon::PoseidonConstants;
use vstd::arithmetic::div_mod::*;
use vstd::prelude::*;

verus! {

/// Whether two inputs of the compression are no collision: with the same output they are the same.
pub open spec fn separates(k: PoseidonConstants, x: Seq<F>, y: Seq<F>) -> bool {
    poseidon::compress_spec(k, x) == poseidon::compress_spec(k, y) ==> x == y
}

/// Whether hash row `i` is a collision of the hash rows of two sets of data: the inputs differ and
/// the outputs do not.
pub open spec fn collides_at(
    k: PoseidonConstants,
    shape: LeanAirShape,
    a: Seq<Seq<F>>,
    b: Seq<Seq<F>>,
    i: int,
) -> bool {
    &&& commit::row_input(k, shape, a, i) != commit::row_input(k, shape, b, i)
    &&& poseidon::compress_spec(k, commit::row_input(k, shape, a, i)) == poseidon::compress_spec(
        k,
        commit::row_input(k, shape, b, i),
    )
}

/// Whether no hash row is a collision.
spec fn collision_free(k: PoseidonConstants, shape: LeanAirShape, a: Seq<Seq<F>>, b: Seq<Seq<F>>) -> bool {
    forall|i: int| 0 <= i < shape.total_rows() ==> !#[trigger] collides_at(k, shape, a, b, i)
}

/// The halves of equal pairs of digests are equal.
proof fn lemma_halves(a: Seq<F>, b: Seq<F>, c: Seq<F>, d: Seq<F>)
    requires
        a.len() == c.len(),
        a + b == c + d,
    ensures
        a == c,
        b == d,
{
    assert((a + b).len() == (c + d).len());
    assert((a + b).take(a.len() as int) =~= a);
    assert((c + d).take(a.len() as int) =~= c);
    assert((a + b).skip(a.len() as int) =~= b);
    assert((c + d).skip(a.len() as int) =~= d);
}

/// Cells with the same input of step `j` are the same as far as it has read.
proof fn lemma_cell_inputs(k: PoseidonConstants, a: Seq<F>, b: Seq<F>, j: nat)
    requires
        a.len() == b.len(),
        j > 0 ==> 16 + 8 * j <= a.len(),
        forall|l: nat|
            l < j ==> #[trigger] separates(k, hashing::cell_input(k, a, l), hashing::cell_input(k, b, l)),
        hashing::cell_input(k, a, j) == hashing::cell_input(k, b, j),
    ensures
        hashing::cell_input(k, a, j).len() == 16,
        forall|i: int| 0 <= i < 16 + 8 * j && i < a.len() ==> #[trigger] a[i] == b[i],
    decreases j,
{
    let x = hashing::cell_input(k, a, j);
    let y = hashing::cell_input(k, b, j);
    if j == 0 {
        assert forall|i: int| 0 <= i < 16 && i < a.len() implies #[trigger] a[i] == b[i] by {
            assert(x[i] == y[i]);
        }
    } else {
        let p: nat = (j - 1) as nat;
        let u = hashing::cell_input(k, a, p);
        let v = hashing::cell_input(k, b, p);
        let next_a = a.subrange(8 + 8 * j as int, 16 + 8 * j as int);
        let next_b = b.subrange(8 + 8 * j as int, 16 + 8 * j as int);
        lemma_input_len(k, a, p);
        lemma_input_len(k, b, p);
        hashing::lemma_compress_len(k, u);
        hashing::lemma_compress_len(k, v);
        lemma_halves(poseidon::compress_spec(k, u), next_a, poseidon::compress_spec(k, v), next_b);
        assert(separates(k, u, v));
        lemma_cell_inputs(k, a, b, p);
        assert forall|i: int| 0 <= i < 16 + 8 * j && i < a.len() implies #[trigger] a[i] == b[i] by {
            if i >= 8 + 8 * j {
                assert(next_a[i - (8 + 8 * j)] == next_b[i - (8 + 8 * j)]);
            }
        }
    }
}

proof fn lemma_input_len(k: PoseidonConstants, cell: Seq<F>, j: nat)
    requires
        j > 0 ==> 16 + 8 * j <= cell.len(),
    ensures
        hashing::cell_input(k, cell, j).len() == 16,
{
    if j > 0 {
        hashing::lemma_compress_len(k, hashing::cell_input(k, cell, (j - 1) as nat));
    }
}

/// Cells of one length with the same digest are the same.
proof fn lemma_cell_digest(k: PoseidonConstants, a: Seq<F>, b: Seq<F>)
    requires
        a.len() == b.len(),
        a.len() % 8 == 0,
        forall|l: nat|
            l < hashing::cell_steps(a.len()) ==> #[trigger] separates(
                k,
                hashing::cell_input(k, a, l),
                hashing::cell_input(k, b, l),
            ),
        hashing::cell_digest(k, a) == hashing::cell_digest(k, b),
    ensures
        a == b,
{
    let j: nat = (hashing::cell_steps(a.len()) - 1) as nat;
    if a.len() > 16 {
        lemma_fundamental_div_mod(a.len() - 16, 8);
    }
    lemma_input_len(k, a, j);
    lemma_input_len(k, b, j);
    let u = hashing::cell_input(k, a, j);
    let v = hashing::cell_input(k, b, j);
    assert(separates(k, u, v));
    lemma_cell_inputs(k, a, b, j);
    assert(a =~= b);
}

proof fn lemma_entry_len(k: PoseidonConstants, leaves: Seq<Seq<F>>, i: nat)
    requires
        leaves.len() > 0,
        i + 1 < 2 * leaves.len(),
        forall|j: int| 0 <= j < leaves.len() ==> (#[trigger] leaves[j]).len() == 8,
    ensures
        hashing::tree_entry(k, leaves, i).len() == 8,
{
    let n: nat = leaves.len();
    if i >= n {
        let t: nat = (i - n) as nat;
        hashing::lemma_compress_len(k, hashing::tree_input(k, leaves, t));
    }
}

/// Whether no node is a collision of two trees.
spec fn trees_separate(k: PoseidonConstants, a: Seq<Seq<F>>, b: Seq<Seq<F>>) -> bool {
    forall|t: nat|
        t + 1 < a.len() ==> #[trigger] separates(k, hashing::tree_input(k, a, t), hashing::tree_input(k, b, t))
}

/// Trees with the same root have the same entries.
proof fn lemma_tree_entries(k: PoseidonConstants, a: Seq<Seq<F>>, b: Seq<Seq<F>>, i: nat)
    requires
        a.len() == b.len(),
        a.len() > 0,
        trees_separate(k, a, b),
        forall|j: int| 0 <= j < a.len() ==> (#[trigger] a[j]).len() == 8,
        forall|j: int| 0 <= j < b.len() ==> (#[trigger] b[j]).len() == 8,
        hashing::tree_root(k, a) == hashing::tree_root(k, b),
        i + 1 < 2 * a.len(),
    ensures
        hashing::tree_entry(k, a, i) == hashing::tree_entry(k, b, i),
    decreases 2 * a.len() - i,
{
    let n: nat = a.len();
    if i + 2 < 2 * n {
        let t: nat = i / 2;
        let parent: nat = n + t;
        lemma_tree_entries(k, a, b, parent);
        let (left, right) = (hashing::tree_entry(k, a, 2 * t), hashing::tree_entry(k, a, 2 * t + 1));
        let (other_left, other_right) = (hashing::tree_entry(k, b, 2 * t), hashing::tree_entry(k, b, 2 * t + 1));
        lemma_entry_len(k, a, 2 * t);
        lemma_entry_len(k, a, 2 * t + 1);
        lemma_entry_len(k, b, 2 * t);
        lemma_entry_len(k, b, 2 * t + 1);
        assert((parent - n) as nat == t);
        assert(hashing::tree_entry(k, a, parent) == poseidon::compress_spec(k, left + right));
        assert(hashing::tree_entry(k, b, parent) == poseidon::compress_spec(k, other_left + other_right));
        assert(separates(k, hashing::tree_input(k, a, t), hashing::tree_input(k, b, t)));
        lemma_halves(left, right, other_left, other_right);
    }
}

proof fn lemma_tree_leaves(k: PoseidonConstants, a: Seq<Seq<F>>, b: Seq<Seq<F>>, i: int)
    requires
        a.len() == b.len(),
        trees_separate(k, a, b),
        forall|j: int| 0 <= j < a.len() ==> (#[trigger] a[j]).len() == 8,
        forall|j: int| 0 <= j < b.len() ==> (#[trigger] b[j]).len() == 8,
        hashing::tree_root(k, a) == hashing::tree_root(k, b),
        0 <= i < a.len(),
    ensures
        a[i] == b[i],
{
    lemma_tree_entries(k, a, b, i as nat);
}

/// Chains with the same digest have the same digests.
proof fn lemma_chain(k: PoseidonConstants, a: Seq<Seq<F>>, b: Seq<Seq<F>>, n: nat, i: int)
    requires
        n <= a.len(),
        n <= b.len(),
        forall|j: int| 0 <= j < n ==> (#[trigger] a[j]).len() == 8,
        forall|j: int| 0 <= j < n ==> (#[trigger] b[j]).len() == 8,
        forall|j: nat|
            j < n ==> #[trigger] separates(k, hashing::chain_input(k, a, j), hashing::chain_input(k, b, j)),
        hashing::chain_state(k, a, n) == hashing::chain_state(k, b, n),
        0 <= i < n,
    ensures
        a[i] == b[i],
    decreases n,
{
    let p: nat = (n - 1) as nat;
    lemma_chain_len(k, a, p);
    lemma_chain_len(k, b, p);
    assert(separates(k, hashing::chain_input(k, a, p), hashing::chain_input(k, b, p)));
    lemma_halves(hashing::chain_state(k, a, p), a[p as int], hashing::chain_state(k, b, p), b[p as int]);
    if i < p {
        lemma_chain(k, a, b, p, i);
    }
}

proof fn lemma_chain_len(k: PoseidonConstants, digests: Seq<Seq<F>>, j: nat)
    requires
        j <= digests.len(),
        forall|i: int| 0 <= i < j ==> (#[trigger] digests[i]).len() == 8,
    ensures
        hashing::chain_state(k, digests, j).len() == 8,
    decreases j,
{
    if j > 0 {
        let p: nat = (j - 1) as nat;
        lemma_chain_len(k, digests, p);
        hashing::lemma_compress_len(k, hashing::chain_state(k, digests, p) + digests[p as int]);
    }
}

/// The commitment binds to the data: two sets of rows of one shape with the same commitment are the
/// same, or one of their hash rows is a collision, where different inputs are compressed to the
/// same output.
pub proof fn law_commitment_binds(k: PoseidonConstants, shape: LeanAirShape, a: Seq<Seq<F>>, b: Seq<Seq<F>>)
    requires
        shape.valid(),
        a.len() == shape.n_rows,
        b.len() == shape.n_rows,
        forall|i: int| 0 <= i < a.len() ==> (#[trigger] a[i]).len() == 5 * shape.codeword_len(),
        forall|i: int| 0 <= i < b.len() ==> (#[trigger] b[i]).len() == 5 * shape.codeword_len(),
        commit::commitment_spec(k, shape, a) == commit::commitment_spec(k, shape, b),
    ensures
        a == b || exists|i: int| 0 <= i < shape.total_rows() && #[trigger] collides_at(k, shape, a, b, i),
{
    if collision_free(k, shape, a, b) {
        shape::lemma_shape(shape);
        commit::lemma_input_final(k, shape, a);
        commit::lemma_input_final(k, shape, b);
        lemma_ranges(shape);
        lemma_root_lens(k, shape, a);
        lemma_root_lens(k, shape, b);
        assert(!collides_at(k, shape, a, b, shape.final_row()));
        lemma_halves(
            commit::row_root_spec(k, shape, a),
            commit::column_root_spec(k, shape, a),
            commit::row_root_spec(k, shape, b),
            commit::column_root_spec(k, shape, b),
        );
        law_column_root_binds(k, shape, a, b);
    }
}

/// The root over the columns binds to the data: two sets of rows of one shape with the same column
/// root are the same, or one of their hash rows is a collision.
pub proof fn law_column_root_binds(k: PoseidonConstants, shape: LeanAirShape, a: Seq<Seq<F>>, b: Seq<Seq<F>>)
    requires
        shape.valid(),
        a.len() == shape.n_rows,
        b.len() == shape.n_rows,
        forall|i: int| 0 <= i < a.len() ==> (#[trigger] a[i]).len() == 5 * shape.codeword_len(),
        forall|i: int| 0 <= i < b.len() ==> (#[trigger] b[i]).len() == 5 * shape.codeword_len(),
        commit::column_root_spec(k, shape, a) == commit::column_root_spec(k, shape, b),
    ensures
        a == b || exists|i: int| 0 <= i < shape.total_rows() && #[trigger] collides_at(k, shape, a, b, i),
{
    if collision_free(k, shape, a, b) {
        assert forall|row: int| 0 <= row < shape.n_rows implies #[trigger] a[row] == b[row] by {
            assert forall|i: int| 0 <= i < a[row].len() implies #[trigger] a[row][i] == b[row][i] by {
                lemma_element(k, shape, a, b, row, i);
            }
            assert(a[row] =~= b[row]);
        }
        assert(a =~= b);
    }
}

/// The root over the rows binds to the first half of every row: two sets of rows of one shape with
/// the same row root have the same cells there, or one of their hash rows is a collision.
pub proof fn law_row_root_binds(k: PoseidonConstants, shape: LeanAirShape, a: Seq<Seq<F>>, b: Seq<Seq<F>>)
    requires
        shape.valid(),
        a.len() == shape.n_rows,
        b.len() == shape.n_rows,
        forall|i: int| 0 <= i < a.len() ==> (#[trigger] a[i]).len() == 5 * shape.codeword_len(),
        forall|i: int| 0 <= i < b.len() ==> (#[trigger] b[i]).len() == 5 * shape.codeword_len(),
        commit::row_root_spec(k, shape, a) == commit::row_root_spec(k, shape, b),
    ensures
        (forall|row: int, cell: int|
            0 <= row < shape.n_rows && 0 <= cell < shape.systematic_cells() ==> #[trigger] commit::cell_of(
                shape,
                a,
                row,
                cell,
            ) == commit::cell_of(shape, b, row, cell)) || exists|i: int|
            0 <= i < shape.total_rows() && #[trigger] collides_at(k, shape, a, b, i),
{
    if collision_free(k, shape, a, b) {
        let digests_a = commit::row_digest_list(k, shape, a);
        let digests_b = commit::row_digest_list(k, shape, b);
        shape::lemma_shape(shape);
        lemma_ranges(shape);
        lemma_row_digest_lens(k, shape, a);
        lemma_row_digest_lens(k, shape, b);
        assert forall|j: nat| j < shape.n_rows implies #[trigger] separates(
            k,
            hashing::chain_input(k, digests_a, j),
            hashing::chain_input(k, digests_b, j),
        ) by {
            commit::lemma_input_row_root(k, shape, a, j as int);
            commit::lemma_input_row_root(k, shape, b, j as int);
            assert(!collides_at(k, shape, a, b, schedule::row_root_row_spec(shape, j as int)));
        }
        assert forall|row: int, cell: int|
            0 <= row < shape.n_rows && 0 <= cell < shape.systematic_cells() implies #[trigger] commit::cell_of(
            shape,
            a,
            row,
            cell,
        ) == commit::cell_of(shape, b, row, cell) by {
            lemma_chain(k, digests_a, digests_b, shape.n_rows as nat, row);
            lemma_systematic_cell(k, shape, a, b, row, cell);
        }
    }
}

/// The digests have eight elements.
proof fn lemma_root_lens(k: PoseidonConstants, shape: LeanAirShape, data: Seq<Seq<F>>)
    requires
        shape.valid(),
    ensures
        commit::row_root_spec(k, shape, data).len() == 8,
        commit::column_root_spec(k, shape, data).len() == 8,
        forall|cell: int, row: int|
            0 <= row < shape.padded() ==> (#[trigger] commit::column_leaves(k, shape, data, cell)[row]).len() == 8,
        forall|cell: int|
            0 <= cell < shape.cells() ==> (#[trigger] commit::column_root_list(k, shape, data)[cell]).len() == 8,
{
    shape::lemma_shape(shape);
    let digests = commit::row_digest_list(k, shape, data);
    hashing::lemma_compress_len(
        k,
        hashing::chain_state(k, digests, (digests.len() - 1) as nat) + digests[digests.len() - 1],
    );
    assert forall|cell: int, row: int| 0 <= row < shape.padded() implies (#[trigger] commit::column_leaves(
        k,
        shape,
        data,
        cell,
    )[row]).len() == 8 by {
        let c = commit::cell_of(shape, data, row, cell);
        hashing::lemma_compress_len(k, hashing::cell_input(k, c, (hashing::cell_steps(c.len()) - 1) as nat));
    }
    let roots = commit::column_root_list(k, shape, data);
    assert forall|cell: int| 0 <= cell < shape.cells() implies (#[trigger] roots[cell]).len() == 8 by {
        let leaves = commit::column_leaves(k, shape, data, cell);
        assert forall|j: int| 0 <= j < leaves.len() implies (#[trigger] leaves[j]).len() == 8 by {
            assert(commit::column_leaves(k, shape, data, cell)[j].len() == 8);
        }
        lemma_entry_len(k, leaves, (2 * leaves.len() - 2) as nat);
    }
    lemma_entry_len(k, roots, (2 * roots.len() - 2) as nat);
}

/// The parts of the schedule are in order.
proof fn lemma_ranges(shape: LeanAirShape)
    requires
        shape.valid(),
    ensures
        0 <= shape.systematic_start() <= shape.column_merkle_start() <= shape.column_root_start()
            <= shape.final_row() < shape.total_rows(),
{
    shape::lemma_shape(shape);
    assert(shape.n_rows as nat * shape.systematic_cells() >= 0) by (nonlinear_arith);
    assert(shape.cells() * ((shape.padded() - 1) as nat) >= 0) by (nonlinear_arith);
}

proof fn lemma_roots_separate(k: PoseidonConstants, shape: LeanAirShape, a: Seq<Seq<F>>, b: Seq<Seq<F>>)
    requires
        collision_free(k, shape, a, b),
        shape.valid(),
    ensures
        trees_separate(k, commit::column_root_list(k, shape, a), commit::column_root_list(k, shape, b)),
{
    let roots_a = commit::column_root_list(k, shape, a);
    let roots_b = commit::column_root_list(k, shape, b);
    shape::lemma_shape(shape);
    lemma_ranges(shape);
    assert forall|t: nat| t + 1 < roots_a.len() implies #[trigger] separates(
        k,
        hashing::tree_input(k, roots_a, t),
        hashing::tree_input(k, roots_b, t),
    ) by {
        commit::lemma_input_column_root(k, shape, a, t as int);
        commit::lemma_input_column_root(k, shape, b, t as int);
        assert(!collides_at(k, shape, a, b, schedule::root_row(shape, t as int)));
    }
}

proof fn lemma_column_separates(k: PoseidonConstants, shape: LeanAirShape, a: Seq<Seq<F>>, b: Seq<Seq<F>>, cell: int)
    requires
        collision_free(k, shape, a, b),
        shape.valid(),
        0 <= cell < shape.cells(),
    ensures
        trees_separate(k, commit::column_leaves(k, shape, a, cell), commit::column_leaves(k, shape, b, cell)),
{
    let leaves_a = commit::column_leaves(k, shape, a, cell);
    let leaves_b = commit::column_leaves(k, shape, b, cell);
    shape::lemma_shape(shape);
    lemma_ranges(shape);
    assert forall|t: nat| t + 1 < leaves_a.len() implies #[trigger] separates(
        k,
        hashing::tree_input(k, leaves_a, t),
        hashing::tree_input(k, leaves_b, t),
    ) by {
        commit::lemma_input_merkle(k, shape, a, cell, t as int);
        commit::lemma_input_merkle(k, shape, b, cell, t as int);
        schedule::lemma_block_bound(cell, shape.cells() as int, t as int, shape.padded() - 1);
        assert(!collides_at(k, shape, a, b, schedule::merkle_row(shape, cell, t as int)));
    }
}

/// One element of the data.
proof fn lemma_element(k: PoseidonConstants, shape: LeanAirShape, a: Seq<Seq<F>>, b: Seq<Seq<F>>, row: int, i: int)
    requires
        collision_free(k, shape, a, b),
        shape.valid(),
        a.len() == shape.n_rows,
        b.len() == shape.n_rows,
        forall|i: int| 0 <= i < a.len() ==> (#[trigger] a[i]).len() == 5 * shape.codeword_len(),
        forall|i: int| 0 <= i < b.len() ==> (#[trigger] b[i]).len() == 5 * shape.codeword_len(),
        commit::column_root_spec(k, shape, a) == commit::column_root_spec(k, shape, b),
        0 <= row < shape.n_rows,
        0 <= i < 5 * shape.codeword_len(),
    ensures
        a[row][i] == b[row][i],
{
    shape::lemma_shape(shape);
    lemma_root_lens(k, shape, a);
    lemma_root_lens(k, shape, b);
    let size: int = shape.cell_base() as int;
    let cells: int = shape.cells() as int;
    let cell: int = i / size;
    lemma_fundamental_div_mod(i, size);
    assert(cells * size == 5 * shape.codeword_len()) by (nonlinear_arith)
        requires
            size == shape.cell_len_ext * 5,
            cells * shape.cell_len_ext == shape.codeword_len(),
    ;
    assert(0 <= cell < cells) by (nonlinear_arith)
        requires
            0 <= i < cells * size,
            i == size * cell + i % size,
            0 <= i % size < size,
    ;
    assert(cell * size + size <= cells * size) by (nonlinear_arith)
        requires
            cell + 1 <= cells,
            size > 0,
    ;
    assert(size * cell == cell * size) by (nonlinear_arith);
    lemma_roots_separate(k, shape, a, b);
    lemma_column_separates(k, shape, a, b, cell);
    lemma_tree_leaves(k, commit::column_root_list(k, shape, a), commit::column_root_list(k, shape, b), cell);
    let leaves_a = commit::column_leaves(k, shape, a, cell);
    let leaves_b = commit::column_leaves(k, shape, b, cell);
    assert forall|j: int| 0 <= j < leaves_a.len() implies (#[trigger] leaves_a[j]).len() == 8 by {
        assert(commit::column_leaves(k, shape, a, cell)[j].len() == 8);
    }
    assert forall|j: int| 0 <= j < leaves_b.len() implies (#[trigger] leaves_b[j]).len() == 8 by {
        assert(commit::column_leaves(k, shape, b, cell)[j].len() == 8);
    }
    lemma_tree_leaves(k, leaves_a, leaves_b, row);
    lemma_cell(k, shape, a, b, row, cell);
    assert(commit::cell_of(shape, a, row, cell)[i - cell * size] == a[row][i]);
    assert(commit::cell_of(shape, b, row, cell)[i - cell * size] == b[row][i]);
}

/// Cells with the same digest.
proof fn lemma_cell(k: PoseidonConstants, shape: LeanAirShape, a: Seq<Seq<F>>, b: Seq<Seq<F>>, row: int, cell: int)
    requires
        collision_free(k, shape, a, b),
        shape.valid(),
        a.len() == shape.n_rows,
        b.len() == shape.n_rows,
        forall|i: int| 0 <= i < a.len() ==> (#[trigger] a[i]).len() == 5 * shape.codeword_len(),
        forall|i: int| 0 <= i < b.len() ==> (#[trigger] b[i]).len() == 5 * shape.codeword_len(),
        0 <= row < shape.n_rows,
        0 <= cell < shape.cells(),
        commit::digest_of(k, shape, a, row, cell) == commit::digest_of(k, shape, b, row, cell),
    ensures
        commit::cell_of(shape, a, row, cell) == commit::cell_of(shape, b, row, cell),
{
    let x = commit::cell_of(shape, a, row, cell);
    let y = commit::cell_of(shape, b, row, cell);
    let size: int = shape.cell_base() as int;
    let cells: int = shape.cells() as int;
    shape::lemma_shape(shape);
    assert(0 <= cell * size && cell * size + size <= 5 * shape.codeword_len()) by (nonlinear_arith)
        requires
            0 <= cell < cells,
            size == shape.cell_len_ext * 5,
            size >= 0,
            cells * shape.cell_len_ext == shape.codeword_len(),
    ;
    assert forall|l: nat| l < hashing::cell_steps(x.len()) implies #[trigger] separates(
        k,
        hashing::cell_input(k, x, l),
        hashing::cell_input(k, y, l),
    ) by {
        commit::lemma_input_cell(k, shape, a, row, cell, l as int);
        commit::lemma_input_cell(k, shape, b, row, cell, l as int);
        schedule::lemma_cell_row_bound(shape, row, cell, l as int);
        lemma_ranges(shape);
        assert(!collides_at(k, shape, a, b, schedule::cell_row(shape, row, cell, l as int)));
    }
    lemma_cell_digest(k, x, y);
}

/// The digests of cells and of rows have eight elements.
proof fn lemma_row_digest_lens(k: PoseidonConstants, shape: LeanAirShape, data: Seq<Seq<F>>)
    ensures
        forall|row: int, cell: int|
            0 <= cell < shape.systematic_cells() ==> (#[trigger] commit::systematic_digests(k, shape, data, row)[cell]).len()
                == 8,
        forall|row: int|
            0 <= row < shape.n_rows ==> (#[trigger] commit::row_digest_list(k, shape, data)[row]).len() == 8,
{
    assert forall|row: int, cell: int| 0 <= cell < shape.systematic_cells() implies (
    #[trigger] commit::systematic_digests(k, shape, data, row)[cell]).len() == 8 by {
        let c = commit::cell_of(shape, data, row, cell);
        hashing::lemma_compress_len(k, hashing::cell_input(k, c, (hashing::cell_steps(c.len()) - 1) as nat));
    }
    assert forall|row: int| 0 <= row < shape.n_rows implies (#[trigger] commit::row_digest_list(
        k,
        shape,
        data,
    )[row]).len() == 8 by {
        let digests = commit::systematic_digests(k, shape, data, row);
        assert forall|i: int| 0 <= i < digests.len() implies (#[trigger] digests[i]).len() == 8 by {
            assert(commit::systematic_digests(k, shape, data, row)[i].len() == 8);
        }
        lemma_chain_len(k, digests, digests.len());
    }
}

/// Cells of the first halves of rows with the same digest.
proof fn lemma_systematic_cell(
    k: PoseidonConstants,
    shape: LeanAirShape,
    a: Seq<Seq<F>>,
    b: Seq<Seq<F>>,
    row: int,
    cell: int,
)
    requires
        collision_free(k, shape, a, b),
        shape.valid(),
        a.len() == shape.n_rows,
        b.len() == shape.n_rows,
        forall|i: int| 0 <= i < a.len() ==> (#[trigger] a[i]).len() == 5 * shape.codeword_len(),
        forall|i: int| 0 <= i < b.len() ==> (#[trigger] b[i]).len() == 5 * shape.codeword_len(),
        0 <= row < shape.n_rows,
        0 <= cell < shape.systematic_cells(),
        commit::row_digest_list(k, shape, a)[row] == commit::row_digest_list(k, shape, b)[row],
    ensures
        commit::cell_of(shape, a, row, cell) == commit::cell_of(shape, b, row, cell),
{
    let x = commit::systematic_digests(k, shape, a, row);
    let y = commit::systematic_digests(k, shape, b, row);
    let n: nat = shape.systematic_cells();
    shape::lemma_shape(shape);
    lemma_ranges(shape);
    lemma_row_digest_lens(k, shape, a);
    lemma_row_digest_lens(k, shape, b);
    assert forall|j: int| 0 <= j < n implies (#[trigger] x[j]).len() == 8 by {
        assert(commit::systematic_digests(k, shape, a, row)[j].len() == 8);
    }
    assert forall|j: int| 0 <= j < n implies (#[trigger] y[j]).len() == 8 by {
        assert(commit::systematic_digests(k, shape, b, row)[j].len() == 8);
    }
    assert forall|j: nat| j < n implies #[trigger] separates(
        k,
        hashing::chain_input(k, x, j),
        hashing::chain_input(k, y, j),
    ) by {
        commit::lemma_input_systematic(k, shape, a, row, j as int);
        commit::lemma_input_systematic(k, shape, b, row, j as int);
        schedule::lemma_block_bound(row, shape.n_rows as int, j as int, n as int);
        assert(!collides_at(k, shape, a, b, schedule::systematic_row(shape, row, j as int)));
    }
    lemma_chain(k, x, y, n, cell);
    lemma_cell(k, shape, a, b, row, cell);
}

} // verus!
