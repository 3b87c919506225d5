//! How digests grow with what is hashed, from a cell to the commitment.
use super::commit;
use super::schedule;
use super::shape::LeanAirShape;
use super::weights;
use crate::arith;
use crate::field::F;
use crate::hashing;
use crate::poseidon;
use crate::poseidon::PoseidonConstants;
use vstd::arithmetic::power2::*;
use vstd::prelude::*;

verus! {

/// As many zeros as are asked for.
pub open spec fn zeros(n: nat) -> Seq<F> {
    Seq::new(n, |i: int| F::of(0))
}

/// A cell of at most sixteen elements is filled up with zeros and compressed once.
pub proof fn law_short_cell_is_filled_up(k: PoseidonConstants, cell: Seq<F>)
    requires
        cell.len() <= 16,
    ensures
        hashing::cell_digest(k, cell) == poseidon::compress_spec(k, cell + zeros((16 - cell.len()) as nat)),
{
    let input = hashing::cell_input(k, cell, 0);
    assert(input =~= cell + zeros((16 - cell.len()) as nat));
}

proof fn lemma_cell_prefix(k: PoseidonConstants, cell: Seq<F>, more: Seq<F>, j: nat)
    requires
        cell.len() >= 16 + 8 * j,
    ensures
        hashing::cell_input(k, cell + more, j) == hashing::cell_input(k, cell, j),
    decreases j,
{
    let all = cell + more;
    if j == 0 {
        assert(hashing::cell_input(k, all, 0) =~= hashing::cell_input(k, cell, 0));
    } else {
        lemma_cell_prefix(k, cell, more, (j - 1) as nat);
        assert(all.subrange(8 + 8 * j as int, 16 + 8 * j as int) =~= cell.subrange(8 + 8 * j as int, 16 + 8 * j as int));
    }
}

/// Behind the first sixteen elements every eight are compressed with the digest of what stands before
/// them, the digest first.
pub proof fn law_cell_digest_absorbs(k: PoseidonConstants, cell: Seq<F>, chunk: Seq<F>)
    requires
        cell.len() >= 16,
        cell.len() % 8 == 0,
        chunk.len() == 8,
    ensures
        hashing::cell_digest(k, cell + chunk) == poseidon::compress_spec(k, hashing::cell_digest(k, cell) + chunk),
{
    let all = cell + chunk;
    let steps: nat = hashing::cell_steps(cell.len());
    assert(cell.len() == 8 + 8 * steps);
    assert(hashing::cell_steps(all.len()) == steps + 1);
    lemma_cell_prefix(k, cell, chunk, (steps - 1) as nat);
    assert(all.subrange(8 + 8 * steps as int, 16 + 8 * steps as int) =~= chunk);
}

proof fn lemma_chain_prefix(k: PoseidonConstants, a: Seq<Seq<F>>, b: Seq<Seq<F>>, j: nat)
    requires
        forall|i: int| 0 <= i < j ==> #[trigger] a[i] == b[i],
    ensures
        hashing::chain_state(k, a, j) == hashing::chain_state(k, b, j),
    decreases j,
{
    if j > 0 {
        lemma_chain_prefix(k, a, b, (j - 1) as nat);
        assert(a[j - 1] == b[j - 1]);
    }
}

/// A chain starts from eight zeros and compresses, one by one, what it has and the next digest, in this
/// order.
pub proof fn law_chain_digest_absorbs(k: PoseidonConstants, digests: Seq<Seq<F>>, next: Seq<F>)
    ensures
        hashing::chain_digest(k, Seq::empty()) == zeros(8),
        hashing::chain_digest(k, digests.push(next)) == poseidon::compress_spec(
            k,
            hashing::chain_digest(k, digests) + next,
        ),
{
    assert(hashing::zero_digest() =~= zeros(8));
    let all = digests.push(next);
    assert(all[digests.len() as int] == next);
    lemma_chain_prefix(k, all, digests, digests.len());
}

/// The digests of pairs of neighbours.
pub open spec fn parents(k: PoseidonConstants, nodes: Seq<Seq<F>>) -> Seq<Seq<F>> {
    Seq::new(nodes.len() / 2, |i: int| poseidon::compress_spec(k, nodes[2 * i] + nodes[2 * i + 1]))
}

proof fn lemma_entry_of_parents(k: PoseidonConstants, leaves: Seq<Seq<F>>, m: nat, i: nat)
    requires
        leaves.len() == 2 * m,
        i + 1 < 2 * m,
    ensures
        hashing::tree_entry(k, leaves, 2 * m + i) == hashing::tree_entry(k, parents(k, leaves), i),
    decreases i,
{
    if i < m {
        assert(hashing::tree_entry(k, leaves, 2 * i) == leaves[2 * i as int]);
        assert(hashing::tree_entry(k, leaves, 2 * i + 1) == leaves[2 * i as int + 1]);
        assert(hashing::tree_entry(k, parents(k, leaves), i) == parents(k, leaves)[i as int]);
    } else {
        let t: nat = (i - m) as nat;
        lemma_entry_of_parents(k, leaves, m, 2 * t);
        lemma_entry_of_parents(k, leaves, m, 2 * t + 1);
        assert(2 * m + 2 * t == 2 * i);
        assert(2 * m + (2 * t + 1) == 2 * i + 1);
    }
}

/// The root of a tree of more than one leaf is that of the tree of the digests of its pairs, and of one
/// leaf the leaf.
pub proof fn law_tree_root_is_of_parents(k: PoseidonConstants, leaves: Seq<Seq<F>>, m: nat)
    requires
        m > 0,
        leaves.len() == 2 * m,
    ensures
        hashing::tree_root(k, leaves) == hashing::tree_root(k, parents(k, leaves)),
        hashing::tree_root(k, seq![leaves[0]]) == leaves[0],
{
    lemma_entry_of_parents(k, leaves, m, (2 * m - 2) as nat);
    assert(2 * m + (2 * m - 2) as nat == 2 * leaves.len() - 2);
    assert(parents(k, leaves).len() == m);
}

/// The root of two trees of the same size next to each other is the digest of their roots, the left one
/// first.
pub proof fn law_tree_root_joins(k: PoseidonConstants, left: Seq<Seq<F>>, right: Seq<Seq<F>>, height: nat)
    requires
        left.len() == pow2(height),
        right.len() == pow2(height),
    ensures
        hashing::tree_root(k, left + right) == poseidon::compress_spec(
            k,
            hashing::tree_root(k, left) + hashing::tree_root(k, right),
        ),
    decreases height,
{
    lemma_pow2_pos(height);
    law_tree_root_is_of_parents(k, left + right, pow2(height));
    if height == 0 {
        lemma2_to64();
        let above = parents(k, left + right);
        assert(above.len() == 1);
        assert((left + right)[0] == left[0] && (left + right)[1] == right[0]);
        assert(above[0] == poseidon::compress_spec(k, left[0] + right[0]));
        assert(hashing::tree_entry(k, above, 0) == above[0]);
        assert(hashing::tree_entry(k, left, 0) == left[0]);
        assert(hashing::tree_entry(k, right, 0) == right[0]);
    } else {
        let h: nat = (height - 1) as nat;
        lemma_pow2_unfold(height);
        lemma_pow2_pos(h);
        law_tree_root_is_of_parents(k, left, pow2(h));
        law_tree_root_is_of_parents(k, right, pow2(h));
        let (a, b) = (parents(k, left), parents(k, right));
        let both = parents(k, left + right);
        assert forall|i: int| 0 <= i < both.len() implies #[trigger] both[i] == (a + b)[i] by {
            let n: int = pow2(h) as int;
            if i >= n {
                assert((left + right)[2 * i] == right[2 * (i - n)]);
                assert((left + right)[2 * i + 1] == right[2 * (i - n) + 1]);
            }
        }
        assert(both =~= a + b);
        law_tree_root_joins(k, a, b, h);
    }
}

/// The elements of cell `c` of a row are the `cell_len` elements, of five coefficients each, from
/// `c * cell_len` on.
pub proof fn law_cell_holds_its_elements(shape: LeanAirShape, data: Seq<Seq<F>>, row: int, c: int, i: int)
    requires
        0 <= c,
        0 <= i < 5 * shape.cell_len_ext,
        5 * (shape.cell_len_ext * c) + 5 * shape.cell_len_ext <= data[row].len(),
    ensures
        commit::cell_of(shape, data, row, c).len() == 5 * shape.cell_len_ext,
        commit::cell_of(shape, data, row, c)[i] == data[row][5 * (shape.cell_len_ext * c) + i],
{
    let base: int = 5 * (shape.cell_len_ext as int);
    assert(c * base == 5 * (shape.cell_len_ext * c)) by (nonlinear_arith)
        requires
            base == 5 * (shape.cell_len_ext as int),
    ;
    assert(shape.cell_base() == base);
    assert(0 <= c * base) by (nonlinear_arith)
        requires
            0 <= c,
            0 <= base,
    ;
}

/// Cells that are the same in two sets of data have the same digest, and a cell is hashed alone.
pub proof fn law_cells_are_hashed_alone(
    k: PoseidonConstants,
    shape: LeanAirShape,
    a: Seq<Seq<F>>,
    b: Seq<Seq<F>>,
    c: int,
)
    requires
        0 <= c < shape.cells(),
        a.len() == shape.n_rows,
        b.len() == shape.n_rows,
        forall|row: int|
            0 <= row < shape.n_rows ==> #[trigger] commit::cell_of(shape, a, row, c) == commit::cell_of(
                shape,
                b,
                row,
                c,
            ),
    ensures
        commit::column_root_list(k, shape, a)[c] == commit::column_root_list(k, shape, b)[c],
{
    let (x, y) = (commit::column_leaves(k, shape, a, c), commit::column_leaves(k, shape, b, c));
    assert forall|row: int| 0 <= row < x.len() implies #[trigger] x[row] == y[row] by {
        if row < shape.n_rows {
            assert(commit::cell_of(shape, a, row, c) == commit::cell_of(shape, b, row, c));
        }
    }
    assert(x =~= y);
}

/// With one row more the row root absorbs the chain over the cells of its first half.
pub proof fn law_row_root_absorbs_row(
    k: PoseidonConstants,
    shape: LeanAirShape,
    more: LeanAirShape,
    data: Seq<Seq<F>>,
    row: Seq<F>,
    halves: Seq<Seq<F>>,
)
    requires
        more.log_m == shape.log_m,
        more.cell_len_ext == shape.cell_len_ext,
        more.n_rows == shape.n_rows + 1,
        data.len() == shape.n_rows,
        halves.len() == pow2(shape.log_m as nat) / (shape.cell_len_ext as nat),
        forall|c: int|
            0 <= c < halves.len() ==> #[trigger] halves[c] == hashing::cell_digest(
                k,
                row.subrange(c * (5 * shape.cell_len_ext), c * (5 * shape.cell_len_ext) + 5 * shape.cell_len_ext),
            ),
    ensures
        commit::row_root_spec(k, more, data.push(row)) == poseidon::compress_spec(
            k,
            commit::row_root_spec(k, shape, data) + hashing::chain_digest(k, halves),
        ),
{
    let all = data.push(row);
    let (old, new) = (commit::row_digest_list(k, shape, data), commit::row_digest_list(k, more, all));
    let last: int = shape.n_rows as int;
    assert forall|r: int| 0 <= r < last implies #[trigger] new[r] == old[r] by {
        let (x, y) = (
            commit::systematic_digests(k, more, all, r),
            commit::systematic_digests(k, shape, data, r),
        );
        assert forall|c: int| 0 <= c < x.len() implies #[trigger] x[c] == y[c] by {
            assert(commit::cell_of(more, all, r, c) =~= commit::cell_of(shape, data, r, c));
        }
        assert(x =~= y);
    }
    assert(new[last] == hashing::chain_digest(k, halves)) by {
        let x = commit::systematic_digests(k, more, all, last);
        assert forall|c: int| 0 <= c < x.len() implies #[trigger] x[c] == halves[c] by {
            assert(halves[c] == halves[c]);
        }
        assert(x =~= halves);
    }
    assert(new =~= old.push(hashing::chain_digest(k, halves)));
    law_chain_digest_absorbs(k, old, hashing::chain_digest(k, halves));
}

/// The root of a column: of one row it is the digest of the cell; of twice as many rows, where they are a
/// power of two, the digest of the roots of the two halves, the first one first.
pub proof fn law_column_root_joins(
    k: PoseidonConstants,
    half: LeanAirShape,
    whole: LeanAirShape,
    first: Seq<Seq<F>>,
    second: Seq<Seq<F>>,
    height: nat,
    c: int,
)
    requires
        whole.log_m == half.log_m,
        whole.cell_len_ext == half.cell_len_ext,
        half.n_rows == pow2(height),
        whole.n_rows == 2 * half.n_rows,
        first.len() == half.n_rows,
        second.len() == half.n_rows,
        0 <= c < half.cells(),
    ensures
        height == 0 ==> commit::column_root_list(k, half, first)[c] == hashing::cell_digest(
            k,
            commit::cell_of(half, first, 0, c),
        ),
        commit::column_root_list(k, whole, first + second)[c] == poseidon::compress_spec(
            k,
            commit::column_root_list(k, half, first)[c] + commit::column_root_list(k, half, second)[c],
        ),
{
    let all = first + second;
    lemma_pow2_unfold(height + 1);
    arith::lemma_next_pow2_of_power(height);
    arith::lemma_next_pow2_of_power(height + 1);
    let (a, b) = (commit::column_leaves(k, half, first, c), commit::column_leaves(k, half, second, c));
    let both = commit::column_leaves(k, whole, all, c);
    let n: int = half.n_rows as int;
    assert(a.len() == n && b.len() == n && both.len() == 2 * n);
    assert forall|row: int| 0 <= row < 2 * n implies #[trigger] both[row] == (a + b)[row] by {
        if row < n {
            assert(commit::cell_of(whole, all, row, c) =~= commit::cell_of(half, first, row, c));
        } else {
            assert(all[row] == second[row - n]);
            assert(commit::cell_of(whole, all, row, c) =~= commit::cell_of(half, second, row - n, c));
        }
    }
    assert(both =~= a + b);
    law_tree_root_joins(k, a, b, height);
    if height == 0 {
        lemma2_to64();
        assert(hashing::tree_entry(k, a, 0) == a[0]);
    }
}

/// A column of rows that are no power of two is filled up with zero digests to the least one.
pub proof fn law_column_is_filled_up(k: PoseidonConstants, shape: LeanAirShape, data: Seq<Seq<F>>, c: int, j: nat)
    requires
        shape.n_rows > 0,
        0 <= c < shape.cells(),
    ensures
        ({
            let leaves = commit::column_leaves(k, shape, data, c);
            &&& commit::column_root_list(k, shape, data)[c] == hashing::tree_root(k, leaves)
            &&& leaves.take(shape.n_rows as int) == Seq::new(
                shape.n_rows as nat,
                |row: int| hashing::cell_digest(k, commit::cell_of(shape, data, row, c)),
            )
            &&& leaves.skip(shape.n_rows as int) == Seq::new(
                (leaves.len() - shape.n_rows) as nat,
                |row: int| zeros(8),
            )
            &&& leaves.len() >= shape.n_rows
            &&& exists|e: nat| #[trigger] pow2(e) == leaves.len()
            &&& pow2(j) >= shape.n_rows ==> pow2(j) >= leaves.len()
        }),
{
    let leaves = commit::column_leaves(k, shape, data, c);
    let n: nat = shape.n_rows as nat;
    arith::lemma_next_pow2(n);
    assert(pow2(arith::log2_ceil_spec(n)) == leaves.len());
    if pow2(j) >= n {
        arith::lemma_next_pow2_least(n, j);
    }
    assert(hashing::zero_digest() =~= zeros(8));
    assert(leaves.take(n as int) =~= Seq::new(
        n,
        |row: int| hashing::cell_digest(k, commit::cell_of(shape, data, row, c)),
    ));
    assert(leaves.skip(n as int) =~= Seq::new((leaves.len() - n) as nat, |row: int| zeros(8)));
}

/// The commitment is the digest of the row root and, behind it, of the root of the tree over the columns,
/// of which there are as many as cells in a codeword of twice the message.
pub proof fn law_commitment_is_of_both_roots(
    k: PoseidonConstants,
    shape: LeanAirShape,
    data: Seq<Seq<F>>,
    roots: Seq<Seq<F>>,
)
    requires
        roots.len() == 2 * pow2(shape.log_m as nat) / (shape.cell_len_ext as nat),
        forall|c: int| 0 <= c < roots.len() ==> #[trigger] roots[c] == commit::column_root_list(k, shape, data)[c],
    ensures
        commit::column_root_list(k, shape, data) == roots,
        commit::commitment_spec(k, shape, data) == poseidon::compress_spec(
            k,
            commit::row_root_spec(k, shape, data) + hashing::tree_root(k, roots),
        ),
{
    assert(commit::column_root_list(k, shape, data) =~= roots);
}

/// The first steps of the hash of a cell give the digest of what they have taken in.
pub proof fn law_cell_step_is_digest_of_part(k: PoseidonConstants, cell: Seq<F>, j: nat)
    requires
        cell.len() >= 16 + 8 * j,
    ensures
        poseidon::compress_spec(k, hashing::cell_input(k, cell, j)) == hashing::cell_digest(
            k,
            cell.take(16 + 8 * j as int),
        ),
{
    let part = cell.take(16 + 8 * j as int);
    let rest = cell.skip(16 + 8 * j as int);
    lemma_cell_prefix(k, part, rest, j);
    assert(part + rest =~= cell);
    assert(hashing::cell_steps(part.len()) == j + 1);
}

/// The first steps of a chain give the digest of the part that they have gone through.
pub proof fn law_chain_step_is_digest_of_part(k: PoseidonConstants, digests: Seq<Seq<F>>, j: nat)
    requires
        j < digests.len(),
    ensures
        poseidon::compress_spec(k, hashing::chain_input(k, digests, j)) == hashing::chain_digest(
            k,
            digests.take((j + 1) as int),
        ),
{
    lemma_chain_prefix(k, digests.take((j + 1) as int), digests, j + 1);
    assert(hashing::chain_state(k, digests, j + 1) == poseidon::compress_spec(
        k,
        hashing::chain_state(k, digests, j) + digests[j as int],
    ));
}

/// A node of a tree gives the root of the leaves below it: those of its place in its layer, of which every
/// layer has half as many nodes as the one below.
pub proof fn law_node_is_root_of_its_leaves(
    k: PoseidonConstants,
    leaves: Seq<Seq<F>>,
    height: nat,
    layer: nat,
    i: int,
)
    requires
        leaves.len() == pow2(height),
        layer < height,
        0 <= i < pow2((height - layer - 1) as nat),
    ensures
        0 <= schedule::tree_node(pow2(height), layer, i) < pow2(height) - 1,
        0 <= i * pow2(layer + 1) <= (i + 1) * pow2(layer + 1) <= pow2(height),
        poseidon::compress_spec(
            k,
            hashing::tree_input(k, leaves, schedule::tree_node(pow2(height), layer, i) as nat),
        ) == hashing::tree_root(k, leaves.subrange(i * pow2(layer + 1), (i + 1) * pow2(layer + 1))),
    decreases layer,
{
    let n: nat = pow2(height);
    let t: int = schedule::tree_node(n, layer, i);
    let w: int = pow2(layer + 1) as int;
    let q: nat = pow2((height - layer) as nat);
    lemma2_to64();
    lemma_pow2_subtracts(layer, height);
    lemma_pow2_unfold((height - layer) as nat);
    lemma_pow2_adds((height - layer - 1) as nat, layer + 1);
    lemma_pow2_pos((height - layer - 1) as nat);
    lemma_pow2_pos(layer);
    lemma_pow2_unfold(layer + 1);
    assert(0 <= i * w <= (i + 1) * w <= n) by (nonlinear_arith)
        requires
            0 <= i,
            i + 1 <= pow2((height - layer - 1) as nat),
            w > 0,
            n == pow2((height - layer - 1) as nat) * w,
    ;
    assert(q <= n) by (nonlinear_arith)
        requires
            n == pow2((height - layer - 1) as nat) * w,
            q == 2 * pow2((height - layer - 1) as nat),
            w >= 2,
    ;
    let below = leaves.subrange(i * w, (i + 1) * w);
    let h: int = pow2(layer) as int;
    assert((i + 1) * w == i * w + w) by (nonlinear_arith);
    assert((2 * i) * h == i * w && (2 * i + 1) * h == i * w + h && (2 * i + 2) * h == (i + 1) * w) by (nonlinear_arith)
        requires
            w == 2 * h,
    ;
    let (left, right) = (leaves.subrange(i * w, i * w + h), leaves.subrange(i * w + h, (i + 1) * w));
    assert(below =~= left + right);
    law_tree_root_joins(k, left, right, layer);
    if layer == 0 {
        assert(n / pow2(0) == n);
        assert(t == i);
        assert(hashing::tree_entry(k, leaves, (2 * i) as nat) == leaves[2 * i]);
        assert(hashing::tree_entry(k, leaves, (2 * i + 1) as nat) == leaves[2 * i + 1]);
        assert(i * w == 2 * i) by (nonlinear_arith)
            requires
                w == 2,
        ;
        assert(left[0] == leaves[2 * i] && right[0] == leaves[2 * i + 1]);
        assert(hashing::tree_entry(k, left, 0) == left[0]);
        assert(hashing::tree_entry(k, right, 0) == right[0]);
    } else {
        let m: nat = (layer - 1) as nat;
        weights::law_tree_nodes_follow_layers(height, m, i);
        let u: int = schedule::tree_node(n, m, 2 * i);
        assert(schedule::tree_node(n, m, 2 * i + 1) == u + 1);
        law_node_is_root_of_its_leaves(k, leaves, height, m, 2 * i);
        law_node_is_root_of_its_leaves(k, leaves, height, m, 2 * i + 1);
        assert(2 * t == n + u);
        assert(hashing::tree_entry(k, leaves, (2 * t) as nat) == poseidon::compress_spec(
            k,
            hashing::tree_input(k, leaves, u as nat),
        )) by {
            assert((n + u - n) as nat == u as nat);
        }
        assert(hashing::tree_entry(k, leaves, (2 * t + 1) as nat) == poseidon::compress_spec(
            k,
            hashing::tree_input(k, leaves, (u + 1) as nat),
        )) by {
            assert((n + (u + 1) - n) as nat == (u + 1) as nat);
        }
    }
}

} // verus!
