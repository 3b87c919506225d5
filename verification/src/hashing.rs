//! Hashes of cells, chains and trees of digests, each with the rows of its compressions.
use crate::arith;
use crate::field::F;
use crate::poseidon;
use crate::poseidon::{DedicatedPoseidonCols, PoseidonConstants};
use vstd::prelude::*;

verus! {

/// The digest of zeros.
pub open spec fn zero_digest() -> Seq<F> {
    Seq::new(8, |i: int| F::zero_spec())
}

/// The input of step `j` of the hash of a cell: first its leading sixteen elements, with zeros
/// after a shorter cell, then the state and the next eight elements.
pub open spec fn cell_input(k: PoseidonConstants, cell: Seq<F>, j: nat) -> Seq<F>
    decreases j,
{
    if j == 0 {
        Seq::new(
            16,
            |i: int|
                if i < cell.len() {
                    cell[i]
                } else {
                    F::zero_spec()
                },
        )
    } else {
        poseidon::compress_spec(k, cell_input(k, cell, (j - 1) as nat)) + cell.subrange(8 + 8 * j as int, 16 + 8 * j as int)
    }
}

/// The state of the hash of a cell after step `j`.
pub open spec fn cell_state(k: PoseidonConstants, cell: Seq<F>, j: nat) -> Seq<F> {
    poseidon::compress_spec(k, cell_input(k, cell, j))
}

/// The number of steps of the hash of a cell.
pub open spec fn cell_steps(len: nat) -> nat {
    if len <= 16 {
        1
    } else {
        1 + (len - 16) as nat / 8
    }
}

/// The digest of a cell.
pub open spec fn cell_digest(k: PoseidonConstants, cell: Seq<F>) -> Seq<F> {
    cell_state(k, cell, (cell_steps(cell.len()) - 1) as nat)
}

/// The state of a chain before digest `j`.
pub open spec fn chain_state(k: PoseidonConstants, digests: Seq<Seq<F>>, j: nat) -> Seq<F>
    decreases j,
{
    if j == 0 {
        zero_digest()
    } else {
        poseidon::compress_spec(k, chain_state(k, digests, (j - 1) as nat) + digests[j - 1])
    }
}

/// The input of step `j` of a chain.
pub open spec fn chain_input(k: PoseidonConstants, digests: Seq<Seq<F>>, j: nat) -> Seq<F> {
    chain_state(k, digests, j) + digests[j as int]
}

/// The digest of a chain.
pub open spec fn chain_digest(k: PoseidonConstants, digests: Seq<Seq<F>>) -> Seq<F> {
    chain_state(k, digests, digests.len())
}

/// Entry `i` of a tree: the leaves first, then the nodes layer by layer, each the compression of
/// two entries before it.
pub open spec fn tree_entry(k: PoseidonConstants, leaves: Seq<Seq<F>>, i: nat) -> Seq<F>
    decreases i,
{
    let n: nat = leaves.len();
    if i < n || i + 1 >= 2 * n {
        leaves[i as int]
    } else {
        let t: nat = (i - n) as nat;
        poseidon::compress_spec(k, tree_entry(k, leaves, 2 * t) + tree_entry(k, leaves, 2 * t + 1))
    }
}

/// The input of node `t` of a tree: the entries `2t` and `2t + 1`.
pub open spec fn tree_input(k: PoseidonConstants, leaves: Seq<Seq<F>>, t: nat) -> Seq<F> {
    tree_entry(k, leaves, 2 * t) + tree_entry(k, leaves, 2 * t + 1)
}

/// The root of a tree.
pub open spec fn tree_root(k: PoseidonConstants, leaves: Seq<Seq<F>>) -> Seq<F> {
    tree_entry(k, leaves, (2 * leaves.len() - 2) as nat)
}

/// Digests by their elements.
pub open spec fn digest_views(digests: Seq<[F; 8]>) -> Seq<Seq<F>> {
    Seq::new(digests.len(), |i: int| digests[i]@)
}

/// Whether a row is the trace of the compression of `input`.
pub open spec fn row_is(k: PoseidonConstants, row: DedicatedPoseidonCols<F>, input: Seq<F>) -> bool {
    &&& row.values_spec() == poseidon::trace_spec(k, input)
    &&& row.inputs@ == input
    &&& row.outputs@ == poseidon::compress_spec(k, input)
}

/// Whether `new` is `old` with the rows of the given inputs after it.
pub open spec fn extended(
    k: PoseidonConstants,
    old_rows: Seq<DedicatedPoseidonCols<F>>,
    new_rows: Seq<DedicatedPoseidonCols<F>>,
    n: nat,
    input: spec_fn(int) -> Seq<F>,
) -> bool {
    &&& new_rows.len() == old_rows.len() + n
    &&& forall|i: int| 0 <= i < old_rows.len() ==> #[trigger] new_rows[i] == old_rows[i]
    &&& forall|j: int|
        old_rows.len() <= j < old_rows.len() + n ==> row_is(k, #[trigger] new_rows[j], input(j - old_rows.len()))
}

/// Compresses `input` and adds its row.
pub fn compress_to_row(k: &PoseidonConstants, input: [F; 16], rows: &mut Vec<DedicatedPoseidonCols<F>>) -> (r: [F; 8])
    ensures
        r@ == poseidon::compress_spec(*k, input@),
        final(rows)@.len() == old(rows)@.len() + 1,
        forall|i: int| 0 <= i < old(rows)@.len() ==> #[trigger] final(rows)@[i] == old(rows)@[i],
        row_is(*k, final(rows)@[old(rows)@.len() as int], input@),
{
    let row = poseidon::dedicated_poseidon_trace(k, input);
    rows.push(row);
    row.outputs
}

/// Two digests side by side.
pub fn pair(left: &[F; 8], right: &[F; 8]) -> (r: [F; 16])
    ensures
        r@ == left@ + right@,
{
    let mut input: [F; 16] = [F::zero(); 16];
    let mut i: usize = 0;
    while i < 8
        invariant
            i <= 8,
            forall|m: int| 0 <= m < i ==> input@[m] == left@[m],
            forall|m: int| 8 <= m < 8 + i ==> input@[m] == right@[m - 8],
        decreases 8 - i,
    {
        input[i] = left[i];
        input[8 + i] = right[i];
        i = i + 1;
    }
    assert(input@ =~= left@ + right@);
    input
}

/// Compresses two digests and adds the row.
pub fn compress_pair_to_row(
    k: &PoseidonConstants,
    left: &[F; 8],
    right: &[F; 8],
    rows: &mut Vec<DedicatedPoseidonCols<F>>,
) -> (r: [F; 8])
    ensures
        r@ == poseidon::compress_spec(*k, left@ + right@),
        final(rows)@.len() == old(rows)@.len() + 1,
        forall|i: int| 0 <= i < old(rows)@.len() ==> #[trigger] final(rows)@[i] == old(rows)@[i],
        row_is(*k, final(rows)@[old(rows)@.len() as int], left@ + right@),
{
    let input = pair(left, right);
    compress_to_row(k, input, rows)
}

/// Eight elements of `data` from `start` on.
fn read_digest(data: &Vec<F>, start: usize) -> (r: [F; 8])
    requires
        start + 8 <= data@.len(),
    ensures
        r@ == data@.subrange(start as int, start + 8),
{
    let n: usize = data.len();
    let mut out: [F; 8] = [F::zero(); 8];
    let mut i: usize = 0;
    while i < 8
        invariant
            i <= 8,
            n == data@.len(),
            start + 8 <= n,
            forall|m: int| 0 <= m < i ==> out@[m] == data@[start + m],
        decreases 8 - i,
    {
        out[i] = data[start + i];
        i = i + 1;
    }
    assert(out@ =~= data@.subrange(start as int, start + 8));
    out
}

/// Hashes the cell `data[start..start + len]` and adds the rows of its steps.
pub fn hash_cell_into(
    k: &PoseidonConstants,
    data: &Vec<F>,
    start: usize,
    len: usize,
    rows: &mut Vec<DedicatedPoseidonCols<F>>,
) -> (r: [F; 8])
    requires
        start + len <= data@.len(),
        0 < len,
        len % 8 == 0,
    ensures
        r@ == cell_digest(*k, data@.subrange(start as int, start + len)),
        extended(
            *k,
            old(rows)@,
            final(rows)@,
            cell_steps(len as nat),
            |j: int| cell_input(*k, data@.subrange(start as int, start + len), j as nat),
        ),
{
    let n: usize = data.len();
    let ghost cell = data@.subrange(start as int, start + len);
    let ghost rows0 = rows@;
    let mut input: [F; 16] = [F::zero(); 16];
    let mut i: usize = 0;
    while i < 16
        invariant
            i <= 16,
            n == data@.len(),
            start + len <= n,
            cell == data@.subrange(start as int, start + len),
            forall|m: int| i <= m < 16 ==> input@[m] == F::zero_spec(),
            forall|m: int| 0 <= m < i ==> input@[m] == cell_input(*k, cell, 0)[m],
        decreases 16 - i,
    {
        if i < len {
            input[i] = data[start + i];
        }
        i = i + 1;
    }
    assert(input@ =~= cell_input(*k, cell, 0));
    let mut state = compress_to_row(k, input, rows);
    let steps: usize = if len <= 16 {
        1
    } else {
        1 + (len - 16) / 8
    };
    let mut j: usize = 1;
    while j < steps
        invariant
            n == data@.len(),
            start + len <= n,
            0 < len,
            len % 8 == 0,
            cell == data@.subrange(start as int, start + len),
            steps == cell_steps(len as nat),
            1 <= j <= steps,
            state@ == cell_state(*k, cell, (j - 1) as nat),
            extended(*k, rows0, rows@, j as nat, |j: int| cell_input(*k, cell, j as nat)),
        decreases steps - j,
    {
        let ghost f = |j: int| cell_input(*k, cell, j as nat);
        let ghost before = rows@;
        let chunk = read_digest(data, start + 8 + 8 * j);
        assert(chunk@ =~= cell.subrange(8 + 8 * j as int, 16 + 8 * j as int));
        assert(state@ + chunk@ == f(j as int));
        state = compress_pair_to_row(k, &state, &chunk, rows);
        assert forall|m: int| rows0.len() <= m < rows0.len() + j + 1 implies row_is(
            *k,
            #[trigger] rows@[m],
            f(m - rows0.len()),
        ) by {
            if m < rows0.len() + j {
                assert(rows@[m] == before[m]);
            }
        }
        assert forall|m: int| 0 <= m < rows0.len() implies #[trigger] rows@[m] == rows0[m] by {
            assert(rows@[m] == before[m]);
        }
        j = j + 1;
    }
    state
}

/// Hashes a chain of digests and adds the rows of its steps.
pub fn chain_hash_digests_into(
    k: &PoseidonConstants,
    digests: &Vec<[F; 8]>,
    rows: &mut Vec<DedicatedPoseidonCols<F>>,
) -> (r: [F; 8])
    ensures
        r@ == chain_digest(*k, digest_views(digests@)),
        extended(
            *k,
            old(rows)@,
            final(rows)@,
            digests@.len(),
            |j: int| chain_input(*k, digest_views(digests@), j as nat),
        ),
{
    let ghost rows0 = rows@;
    let ghost ds = digest_views(digests@);
    let mut state: [F; 8] = [F::zero(); 8];
    assert(state@ =~= zero_digest());
    let mut j: usize = 0;
    while j < digests.len()
        invariant
            j <= digests@.len(),
            ds == digest_views(digests@),
            state@ == chain_state(*k, ds, j as nat),
            extended(*k, rows0, rows@, j as nat, |j: int| chain_input(*k, ds, j as nat)),
        decreases digests@.len() - j,
    {
        let ghost f = |j: int| chain_input(*k, ds, j as nat);
        let ghost before = rows@;
        assert(ds[j as int] == digests@[j as int]@);
        assert(state@ + digests@[j as int]@ == f(j as int));
        state = compress_pair_to_row(k, &state, &digests[j], rows);
        assert forall|m: int| rows0.len() <= m < rows0.len() + j + 1 implies row_is(
            *k,
            #[trigger] rows@[m],
            f(m - rows0.len()),
        ) by {
            if m < rows0.len() + j {
                assert(rows@[m] == before[m]);
            }
        }
        assert forall|m: int| 0 <= m < rows0.len() implies #[trigger] rows@[m] == rows0[m] by {
            assert(rows@[m] == before[m]);
        }
        j = j + 1;
    }
    state
}

/// Hashes a tree of digests and adds the rows of its nodes.
pub fn merkle_root_from_digests_into(
    k: &PoseidonConstants,
    leaves: &Vec<[F; 8]>,
    rows: &mut Vec<DedicatedPoseidonCols<F>>,
) -> (r: [F; 8])
    requires
        arith::is_power(leaves@.len()),
        2 * leaves@.len() <= usize::MAX,
    ensures
        r@ == tree_root(*k, digest_views(leaves@)),
        extended(
            *k,
            old(rows)@,
            final(rows)@,
            (leaves@.len() - 1) as nat,
            |t: int| tree_input(*k, digest_views(leaves@), t as nat),
        ),
{
    let ghost rows0 = rows@;
    let ghost ds = digest_views(leaves@);
    let n: usize = leaves.len();
    proof {
        let e = choose|e: nat| leaves@.len() == #[trigger] vstd::arithmetic::power2::pow2(e);
        vstd::arithmetic::power2::lemma_pow2_pos(e);
    }
    let mut entries: Vec<[F; 8]> = Vec::new();
    let mut i: usize = 0;
    while i < n
        invariant
            i <= n,
            n == leaves@.len(),
            ds == digest_views(leaves@),
            entries@.len() == i,
            forall|m: int| 0 <= m < i ==> (#[trigger] entries@[m])@ == tree_entry(*k, ds, m as nat),
        decreases n - i,
    {
        entries.push(leaves[i]);
        i = i + 1;
    }
    let mut t: usize = 0;
    while t + 1 < n
        invariant
            1 <= n,
            t + 1 <= n,
            2 * n <= usize::MAX,
            n == leaves@.len(),
            ds == digest_views(leaves@),
            entries@.len() == n + t,
            forall|m: int| 0 <= m < n + t ==> (#[trigger] entries@[m])@ == tree_entry(*k, ds, m as nat),
            extended(*k, rows0, rows@, t as nat, |t: int| tree_input(*k, ds, t as nat)),
        decreases n - t,
    {
        let ghost f = |t: int| tree_input(*k, ds, t as nat);
        let ghost before = rows@;
        let left = entries[2 * t];
        let right = entries[2 * t + 1];
        assert(left@ + right@ == f(t as int));
        let node = compress_pair_to_row(k, &left, &right, rows);
        entries.push(node);
        assert(node@ == tree_entry(*k, ds, (n + t) as nat));
        assert forall|m: int| rows0.len() <= m < rows0.len() + t + 1 implies row_is(
            *k,
            #[trigger] rows@[m],
            f(m - rows0.len()),
        ) by {
            if m < rows0.len() + t {
                assert(rows@[m] == before[m]);
            }
        }
        assert forall|m: int| 0 <= m < rows0.len() implies #[trigger] rows@[m] == rows0[m] by {
            assert(rows@[m] == before[m]);
        }
        t = t + 1;
    }
    entries[2 * n - 2]
}

/// The compression has eight elements.
pub proof fn lemma_compress_len(k: PoseidonConstants, input: Seq<F>)
    ensures
        poseidon::compress_spec(k, input).len() == 8,
{
}

} // verus!
