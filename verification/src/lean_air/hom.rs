//! Maps that keep the operations of a ring keep the constraints.
use super::air;
use crate::algebra::Ring;
use crate::field::F;
use crate::poseidon;
use crate::poseidon::PoseidonConstants;
use vstd::prelude::*;

verus! {

/// Whether a map keeps the operations of a ring.
pub open spec fn keeps_operations<A: Ring, B: Ring>(h: spec_fn(A) -> B) -> bool {
    &&& h(A::nought()) == B::nought()
    &&& forall|a: A, b: A| #[trigger] h(a.plus_spec(b)) == h(a).plus_spec(h(b))
    &&& forall|a: A, b: A| #[trigger] h(a.minus_spec(b)) == h(a).minus_spec(h(b))
    &&& forall|a: A, b: A| #[trigger] h(a.times_spec(b)) == h(a).times_spec(h(b))
    &&& forall|a: A, k: F| #[trigger] h(a.plus_base_spec(k)) == h(a).plus_base_spec(k)
    &&& forall|a: A, k: F| #[trigger] h(a.times_base_spec(k)) == h(a).times_base_spec(k)
}

/// A map applied to every element.
pub open spec fn mapped<A, B>(h: spec_fn(A) -> B, s: Seq<A>) -> Seq<B> {
    Seq::new(s.len(), |i: int| h(s[i]))
}

proof fn lemma_map_dot<A: Ring, B: Ring>(h: spec_fn(A) -> B, s: Seq<A>, row: Seq<F>, n: nat)
    requires
        keeps_operations(h),
        n <= s.len(),
    ensures
        poseidon::dot(mapped(h, s), row, n) == h(poseidon::dot(s, row, n)),
    decreases n,
{
    if n > 0 {
        lemma_map_dot(h, s, row, (n - 1) as nat);
    }
}

proof fn lemma_map_mat_vec<A: Ring, B: Ring>(h: spec_fn(A) -> B, mat: Seq<[F; 16]>, s: Seq<A>)
    requires
        keeps_operations(h),
        s.len() == 16,
    ensures
        poseidon::mat_vec(mat, mapped(h, s)) == mapped(h, poseidon::mat_vec(mat, s)),
{
    assert forall|i: int| 0 <= i < 16 implies #[trigger] poseidon::mat_vec(mat, mapped(h, s))[i] == mapped(h, 
        poseidon::mat_vec(mat, s),
    )[i] by {
        lemma_map_dot(h, s, mat[i]@, 16);
    }
    assert(poseidon::mat_vec(mat, mapped(h, s)) =~= mapped(h, poseidon::mat_vec(mat, s)));
}

proof fn lemma_map_cube<A: Ring, B: Ring>(h: spec_fn(A) -> B, a: A)
    requires
        keeps_operations(h),
    ensures
        poseidon::cube_spec(h(a)) == h(poseidon::cube_spec(a)),
{
}

proof fn lemma_map_full_round<A: Ring, B: Ring>(h: spec_fn(A) -> B, k: PoseidonConstants, c: Seq<F>, s: Seq<A>)
    requires
        keeps_operations(h),
        s.len() == 16,
    ensures
        poseidon::full_round(k, c, mapped(h, s)) == mapped(h, poseidon::full_round(k, c, s)),
{
    let cubes = Seq::new(16, |i: int| poseidon::cube_spec(s[i].plus_base_spec(c[i])));
    let lifted = Seq::new(16, |i: int| poseidon::cube_spec(mapped(h, s)[i].plus_base_spec(c[i])));
    assert forall|i: int| 0 <= i < 16 implies #[trigger] lifted[i] == mapped(h, cubes)[i] by {
        lemma_map_cube(h, s[i].plus_base_spec(c[i]));
    }
    assert(lifted =~= mapped(h, cubes));
    lemma_map_mat_vec(h, k.mds@, cubes);
}

proof fn lemma_map_two_full_rounds<A: Ring, B: Ring>(h: spec_fn(A) -> B, k: PoseidonConstants, c1: Seq<F>, c2: Seq<F>, s: Seq<A>)
    requires
        keeps_operations(h),
        s.len() == 16,
    ensures
        poseidon::two_full_rounds(k, c1, c2, mapped(h, s)) == mapped(h, poseidon::two_full_rounds(k, c1, c2, s)),
{
    lemma_map_full_round(h, k, c1, s);
    lemma_map_full_round(h, k, c2, poseidon::full_round(k, c1, s));
}

proof fn lemma_map_enter_partial<A: Ring, B: Ring>(h: spec_fn(A) -> B, k: PoseidonConstants, s: Seq<A>)
    requires
        keeps_operations(h),
        s.len() == 16,
    ensures
        poseidon::enter_partial(k, mapped(h, s)) == mapped(h, poseidon::enter_partial(k, s)),
{
    let c = k.sparse_first_round@;
    let t = Seq::new(16, |i: int| s[i].plus_base_spec(c[i]));
    let lifted = Seq::new(16, |i: int| mapped(h, s)[i].plus_base_spec(c[i]));
    assert forall|i: int| 0 <= i < 16 implies #[trigger] lifted[i] == mapped(h, t)[i] by {
    }
    assert(lifted =~= mapped(h, t));
    lemma_map_mat_vec(h, k.sparse_m_i@, t);
}

proof fn lemma_map_partial_step<A: Ring, B: Ring>(h: spec_fn(A) -> B, k: PoseidonConstants, r: int, s: Seq<A>, cell: A)
    requires
        keeps_operations(h),
        s.len() == 16,
        0 <= r < 20,
    ensures
        poseidon::partial_step(k, r, mapped(h, s), h(cell)) == mapped(h, 
            poseidon::partial_step(k, r, s, cell),
        ),
{
    let first = if r < 19 {
        cell.plus_base_spec(k.sparse_scalar@[r])
    } else {
        cell
    };
    let t = s.update(0, first);
    assert(mapped(h, s).update(0, h(first)) =~= mapped(h, t));
    lemma_map_dot(h, t, k.sparse_first_row@[r]@, 16);
    let a = poseidon::partial_step(k, r, mapped(h, s), h(cell));
    let b = mapped(h, poseidon::partial_step(k, r, s, cell));
    assert forall|i: int| 0 <= i < 16 implies #[trigger] a[i] == b[i] by {
        if i > 0 {
            let v = k.sparse_v@[r]@[i - 1];
        }
    }
    assert(a =~= b);
}

proof fn lemma_map_partial_state<A: Ring, B: Ring>(h: spec_fn(A) -> B, k: PoseidonConstants, s: Seq<A>, cells: Seq<A>, r: nat)
    requires
        keeps_operations(h),
        s.len() == 16,
        r <= 20,
        cells.len() == 20,
    ensures
        poseidon::partial_state(k, s, cells, r).len() == 16,
        poseidon::partial_state(k, mapped(h, s), mapped(h, cells), r) == mapped(h, poseidon::partial_state(k, s, cells, r)),
    decreases r,
{
    if r > 0 {
        lemma_map_partial_state(h, k, s, cells, (r - 1) as nat);
        lemma_map_partial_step(h, k, r - 1, poseidon::partial_state(k, s, cells, (r - 1) as nat), cells[r - 1]);
    }
}

proof fn lemma_map_differences<A: Ring, B: Ring>(h: spec_fn(A) -> B, n: nat, x: Seq<A>, y: Seq<A>)
    requires
        keeps_operations(h),
        n <= x.len(),
        n <= y.len(),
    ensures
        air::differences(n, mapped(h, x), mapped(h, y)) == mapped(h, air::differences(n, x, y)),
{
    let a = air::differences(n, mapped(h, x), mapped(h, y));
    let b = mapped(h, air::differences(n, x, y));
    assert forall|i: int| 0 <= i < n implies #[trigger] a[i] == b[i] by {
    }
    assert(a =~= b);
}

/// The state after the partial rounds of a mapped row is the mapped state.
pub proof fn lemma_map_air_state<A: Ring, B: Ring>(h: spec_fn(A) -> B, k: PoseidonConstants, row: Seq<A>)
    requires
        keeps_operations(h),
        row.len() == 92,
    ensures
        air::air_partial_state(k, mapped(h, row), 20) == mapped(h, air::air_partial_state(k, row, 20)),
{
    let b1 = air::row_beginning(row, 1);
    let cells = air::row_cells(row);
    assert(air::row_beginning(mapped(h, row), 1) =~= mapped(h, b1));
    assert(air::row_cells(mapped(h, row)) =~= mapped(h, cells));
    lemma_map_enter_partial(h, k, b1);
    lemma_map_partial_state(h, k, poseidon::enter_partial(k, b1), cells, 20);
}

/// The constraints on a mapped row are the mapped constraints.
pub proof fn lemma_map_constraints<A: Ring, B: Ring>(h: spec_fn(A) -> B, k: PoseidonConstants, row: Seq<A>)
    requires
        keeps_operations(h),
        row.len() == 92,
    ensures
        air::constraints_spec(k, row).len() == 76,
        air::constraints_spec(k, mapped(h, row)) == mapped(h, air::constraints_spec(k, row)),
{
    let up = mapped(h, row);
    let inputs = air::row_inputs(row);
    let b0 = air::row_beginning(row, 0);
    let b1 = air::row_beginning(row, 1);
    let cells = air::row_cells(row);
    let ending = air::row_ending(row);
    let outputs = air::row_outputs(row);
    assert(air::row_inputs(up) =~= mapped(h, inputs));
    assert(air::row_beginning(up, 0) =~= mapped(h, b0));
    assert(air::row_beginning(up, 1) =~= mapped(h, b1));
    assert(air::row_cells(up) =~= mapped(h, cells));
    assert(air::row_ending(up) =~= mapped(h, ending));
    assert(air::row_outputs(up) =~= mapped(h, outputs));
    // The beginning full rounds.
    lemma_map_two_full_rounds(h, k, k.initial@[0]@, k.initial@[1]@, inputs);
    lemma_map_two_full_rounds(h, k, k.initial@[2]@, k.initial@[3]@, b0);
    lemma_map_differences(h, 16, poseidon::two_full_rounds(k, k.initial@[0]@, k.initial@[1]@, inputs), b0);
    lemma_map_differences(h, 16, poseidon::two_full_rounds(k, k.initial@[2]@, k.initial@[3]@, b0), b1);
    // The partial rounds.
    lemma_map_enter_partial(h, k, b1);
    let start = poseidon::enter_partial(k, b1);
    let pa = air::partial_constraints(k, up);
    let pb = mapped(h, air::partial_constraints(k, row));
    assert forall|r: int| 0 <= r < 20 implies #[trigger] pa[r] == pb[r] by {
        lemma_map_partial_state(h, k, start, cells, r as nat);
        let first = poseidon::partial_state(k, start, cells, r as nat)[0];
        lemma_map_cube(h, first);
    }
    assert(pa =~= pb);
    // The ending full rounds.
    lemma_map_partial_state(h, k, start, cells, 20);
    let after = poseidon::partial_state(k, start, cells, 20);
    lemma_map_two_full_rounds(h, k, k.ending@[0]@, k.ending@[1]@, after);
    lemma_map_differences(h, 16, poseidon::two_full_rounds(k, k.ending@[0]@, k.ending@[1]@, after), ending);
    lemma_map_two_full_rounds(h, k, k.ending@[2]@, k.ending@[3]@, ending);
    let t = poseidon::two_full_rounds(k, k.ending@[2]@, k.ending@[3]@, ending);
    let last = poseidon::last_state(k, inputs, ending);
    let last_up = poseidon::last_state(k, mapped(h, inputs), mapped(h, ending));
    assert forall|i: int| 0 <= i < 16 implies #[trigger] last_up[i] == mapped(h, last)[i] by {
    }
    assert(last_up =~= mapped(h, last));
    lemma_map_differences(h, 8, last, outputs);
    assert(air::constraints_spec(k, up) =~= mapped(h, air::constraints_spec(k, row)));
}

} // verus!
