//! The width-sixteen permutation in its sparse form, its trace and the constraints on the trace.
use crate::algebra::{Algebra, Ring};
use crate::field::F;
use vstd::prelude::*;

verus! {

/// The number of field elements of a digest.
pub const DIGEST_LEN: usize = 8;

/// The number of field elements of a compression's input: two digests.
pub const DEDICATED_HASH_WIDTH: usize = 16;

/// Half of the full rounds; as many come before the partial rounds as after them.
pub const POSEIDON1_HALF_FULL_ROUNDS: usize = 4;

pub const POSEIDON1_PARTIAL_ROUNDS: usize = 20;

pub const DEDICATED_HASH_HALF_INITIAL_FULL_ROUNDS: usize = POSEIDON1_HALF_FULL_ROUNDS / 2;

pub const DEDICATED_HASH_HALF_FINAL_FULL_ROUNDS: usize = POSEIDON1_HALF_FULL_ROUNDS / 2;

pub const DEDICATED_HASH_STORED_ENDING_FULL_ROUNDS: usize = DEDICATED_HASH_HALF_FINAL_FULL_ROUNDS - 1;

pub const DEDICATED_HASH_PARTIAL_ROUNDS: usize = POSEIDON1_PARTIAL_ROUNDS;

/// The first of the trace columns that hold the input.
pub const DEDICATED_HASH_INPUT_START: usize = 0;

/// The first of the trace columns that hold the states after pairs of beginning full rounds.
pub const DEDICATED_HASH_BEGINNING_FULL_ROUNDS_START: usize = DEDICATED_HASH_INPUT_START + DEDICATED_HASH_WIDTH;

/// The first of the trace columns that hold the cubes of the partial rounds.
pub const DEDICATED_HASH_PARTIAL_ROUNDS_START: usize = DEDICATED_HASH_BEGINNING_FULL_ROUNDS_START
    + DEDICATED_HASH_WIDTH * DEDICATED_HASH_HALF_INITIAL_FULL_ROUNDS;

/// The first of the trace columns that hold the states after pairs of ending full rounds.
pub const DEDICATED_HASH_ENDING_FULL_ROUNDS_START: usize = DEDICATED_HASH_PARTIAL_ROUNDS_START
    + DEDICATED_HASH_PARTIAL_ROUNDS;

/// The first of the trace columns that hold the output digest.
pub const DEDICATED_HASH_OUTPUT_START: usize = DEDICATED_HASH_ENDING_FULL_ROUNDS_START + DEDICATED_HASH_WIDTH
    * DEDICATED_HASH_STORED_ENDING_FULL_ROUNDS;

/// The number of trace columns.
pub const DEDICATED_HASH_NUM_COLS: usize = DEDICATED_HASH_OUTPUT_START + DIGEST_LEN;

/// The constants of the permutation: round constants, the linear layer of the full rounds, and the
/// factors of the partial rounds' linear layers.
#[derive(Clone, Debug)]
pub struct PoseidonConstants {
    /// The round constants of the full rounds before the partial rounds.
    pub initial: [[F; 16]; 4],
    /// The round constants of the full rounds after the partial rounds.
    pub ending: [[F; 16]; 4],
    /// The linear layer of the full rounds.
    pub mds: [[F; 16]; 16],
    /// The constants added before the partial rounds.
    pub sparse_first_round: [F; 16],
    /// The dense matrix applied before the partial rounds.
    pub sparse_m_i: [[F; 16]; 16],
    /// The first rows of the sparse matrices of the partial rounds.
    pub sparse_first_row: [[F; 16]; 20],
    /// The first columns, below the first entry, of the sparse matrices of the partial rounds.
    pub sparse_v: [[F; 16]; 20],
    /// The constants added in all partial rounds but the last.
    pub sparse_scalar: [F; 19],
}

/// `s[0] * row[0] + ... + s[n - 1] * row[n - 1]`.
pub open spec fn dot<A: Ring>(s: Seq<A>, row: Seq<F>, n: nat) -> A
    decreases n,
{
    if n == 0 {
        A::nought()
    } else {
        dot(s, row, (n - 1) as nat).plus_spec(s[n - 1].times_base_spec(row[n - 1]))
    }
}

/// The product of a matrix with the state.
pub open spec fn mat_vec<A: Ring>(mat: Seq<[F; 16]>, s: Seq<A>) -> Seq<A> {
    Seq::new(16, |i: int| dot(s, mat[i]@, 16))
}

pub open spec fn cube_spec<A: Ring>(a: A) -> A {
    a.times_spec(a).times_spec(a)
}

/// A full round: add the constants, cube every element, apply the linear layer.
pub open spec fn full_round<A: Ring>(k: PoseidonConstants, c: Seq<F>, s: Seq<A>) -> Seq<A> {
    mat_vec(k.mds@, Seq::new(16, |i: int| cube_spec(s[i].plus_base_spec(c[i]))))
}

/// Two full rounds.
pub open spec fn two_full_rounds<A: Ring>(k: PoseidonConstants, c1: Seq<F>, c2: Seq<F>, s: Seq<A>) -> Seq<A> {
    full_round(k, c2, full_round(k, c1, s))
}

/// The state that enters the partial rounds, from the state after the beginning full rounds.
pub open spec fn enter_partial<A: Ring>(k: PoseidonConstants, s: Seq<A>) -> Seq<A> {
    mat_vec(k.sparse_m_i@, Seq::new(16, |i: int| s[i].plus_base_spec(k.sparse_first_round@[i])))
}

/// The state after partial round `r`, where `cell` stands for the cube of the first element.
pub open spec fn partial_step<A: Ring>(k: PoseidonConstants, r: int, s: Seq<A>, cell: A) -> Seq<A> {
    let first = if r < DEDICATED_HASH_PARTIAL_ROUNDS - 1 {
        cell.plus_base_spec(k.sparse_scalar@[r])
    } else {
        cell
    };
    let t = s.update(0, first);
    Seq::new(
        16,
        |i: int|
            if i == 0 {
                dot(t, k.sparse_first_row@[r]@, 16)
            } else {
                t[i].plus_spec(first.times_base_spec(k.sparse_v@[r]@[i - 1]))
            },
    )
}

/// The state before partial round `r`, where `cells` stand for the cubes.
pub open spec fn partial_state<A: Ring>(k: PoseidonConstants, s: Seq<A>, cells: Seq<A>, r: nat) -> Seq<A>
    decreases r,
{
    if r == 0 {
        s
    } else {
        partial_step(k, r - 1, partial_state(k, s, cells, (r - 1) as nat), cells[r - 1])
    }
}

/// The cubes of the first `r` partial rounds that start from `s`.
pub open spec fn partial_cells<A: Ring>(k: PoseidonConstants, s: Seq<A>, r: nat) -> Seq<A>
    decreases r,
{
    if r == 0 {
        Seq::empty()
    } else {
        let before = partial_cells(k, s, (r - 1) as nat);
        before.push(cube_spec(partial_state(k, s, before, (r - 1) as nat)[0]))
    }
}

/// The state after the last two full rounds, with the input added.
pub open spec fn last_state<A: Ring>(k: PoseidonConstants, input: Seq<A>, s: Seq<A>) -> Seq<A> {
    let t = two_full_rounds(k, k.ending@[2]@, k.ending@[3]@, s);
    Seq::new(16, |i: int| t[i].plus_spec(input[i]))
}

pub open spec fn beginning_state(k: PoseidonConstants, input: Seq<F>, pair: int) -> Seq<F> {
    let first = two_full_rounds(k, k.initial@[0]@, k.initial@[1]@, input);
    if pair == 0 {
        first
    } else {
        two_full_rounds(k, k.initial@[2]@, k.initial@[3]@, first)
    }
}

/// The cubes of the partial rounds of the permutation of `input`.
pub open spec fn trace_cells(k: PoseidonConstants, input: Seq<F>) -> Seq<F> {
    partial_cells(k, enter_partial(k, beginning_state(k, input, 1)), 20)
}

/// The state after the first pair of ending full rounds.
pub open spec fn ending_state(k: PoseidonConstants, input: Seq<F>) -> Seq<F> {
    two_full_rounds(
        k,
        k.ending@[0]@,
        k.ending@[1]@,
        partial_state(k, enter_partial(k, beginning_state(k, input, 1)), trace_cells(k, input), 20),
    )
}

/// The compression of sixteen field elements to a digest.
pub open spec fn compress_spec(k: PoseidonConstants, input: Seq<F>) -> Seq<F> {
    last_state(k, input, ending_state(k, input)).subrange(0, 8)
}

/// The trace of one compression, column by column.
pub open spec fn trace_spec(k: PoseidonConstants, input: Seq<F>) -> Seq<F> {
    input + beginning_state(k, input, 0) + beginning_state(k, input, 1) + trace_cells(k, input) + ending_state(
        k,
        input,
    ) + compress_spec(k, input)
}

/// One row of the trace.
#[derive(Clone, Copy, Debug)]
pub struct DedicatedPoseidonCols<A> {
    pub inputs: [A; 16],
    pub beginning_full_rounds: [[A; 16]; 2],
    pub partial_rounds: [A; 20],
    pub ending_full_rounds: [[A; 16]; 1],
    pub outputs: [A; 8],
}

impl<A: Ring> DedicatedPoseidonCols<A> {
    /// The values of the row, column by column.
    pub open spec fn values_spec(self) -> Seq<A> {
        self.inputs@ + self.beginning_full_rounds@[0]@ + self.beginning_full_rounds@[1]@ + self.partial_rounds@
            + self.ending_full_rounds@[0]@ + self.outputs@
    }
}

/// The product of a matrix with the state.
pub fn dense_mat_vec<A: Algebra>(mat: &[[F; 16]; 16], state: &[A; 16]) -> (r: [A; 16])
    ensures
        r@ == mat_vec(mat@, state@),
{
    let mut out: [A; 16] = [A::zero_value(); 16];
    let mut i: usize = 0;
    while i < 16
        invariant
            i <= 16,
            forall|m: int| 0 <= m < i ==> #[trigger] out@[m] == dot(state@, mat@[m]@, 16),
        decreases 16 - i,
    {
        let mut acc: A = A::zero_value();
        let mut j: usize = 0;
        while j < 16
            invariant
                i < 16,
                j <= 16,
                acc == dot(state@, mat@[i as int]@, j as nat),
            decreases 16 - j,
        {
            acc = acc.plus(state[j].times_base(mat[i][j]));
            j = j + 1;
        }
        out[i] = acc;
        i = i + 1;
    }
    assert(out@ =~= mat_vec(mat@, state@));
    out
}

fn one_full_round<A: Algebra>(k: &PoseidonConstants, c: &[F; 16], state: &[A; 16]) -> (r: [A; 16])
    ensures
        r@ == full_round(*k, c@, state@),
{
    let mut cubes: [A; 16] = *state;
    let mut i: usize = 0;
    while i < 16
        invariant
            i <= 16,
            forall|m: int|
                0 <= m < i ==> #[trigger] cubes@[m] == cube_spec(state@[m].plus_base_spec(c@[m])),
        decreases 16 - i,
    {
        let x = state[i].plus_base(c[i]);
        cubes[i] = x.times(x).times(x);
        i = i + 1;
    }
    assert(cubes@ =~= Seq::new(16, |m: int| cube_spec(state@[m].plus_base_spec(c@[m]))));
    dense_mat_vec(&k.mds, &cubes)
}

/// Two full rounds.
pub fn generate_2_full_rounds<A: Algebra>(
    k: &PoseidonConstants,
    c1: &[F; 16],
    c2: &[F; 16],
    state: &[A; 16],
) -> (r: [A; 16])
    ensures
        r@ == two_full_rounds(*k, c1@, c2@, state@),
{
    let mid = one_full_round(k, c1, state);
    one_full_round(k, c2, &mid)
}

/// The state that enters the partial rounds.
pub fn generate_enter_partial<A: Algebra>(k: &PoseidonConstants, state: &[A; 16]) -> (r: [A; 16])
    ensures
        r@ == enter_partial(*k, state@),
{
    let mut sums: [A; 16] = *state;
    let mut i: usize = 0;
    while i < 16
        invariant
            i <= 16,
            forall|m: int|
                0 <= m < i ==> #[trigger] sums@[m] == state@[m].plus_base_spec(k.sparse_first_round@[m]),
        decreases 16 - i,
    {
        sums[i] = state[i].plus_base(k.sparse_first_round[i]);
        i = i + 1;
    }
    assert(sums@ =~= Seq::new(16, |m: int| state@[m].plus_base_spec(k.sparse_first_round@[m])));
    dense_mat_vec(&k.sparse_m_i, &sums)
}

/// The linear layer of a partial round, with the cube in place of the first element.
pub fn sparse_mat<A: Algebra>(k: &PoseidonConstants, round: usize, state: &[A; 16], cell: A) -> (r: [A; 16])
    requires
        round < DEDICATED_HASH_PARTIAL_ROUNDS,
    ensures
        r@ == partial_step(*k, round as int, state@, cell),
{
    let first = if round < DEDICATED_HASH_PARTIAL_ROUNDS - 1 {
        cell.plus_base(k.sparse_scalar[round])
    } else {
        cell
    };
    let mut t: [A; 16] = *state;
    t[0] = first;
    let ghost ts = t@;
    let mut acc: A = A::zero_value();
    let mut j: usize = 0;
    while j < 16
        invariant
            j <= 16,
            round < 20,
            ts == t@,
            acc == dot(ts, k.sparse_first_row@[round as int]@, j as nat),
        decreases 16 - j,
    {
        acc = acc.plus(t[j].times_base(k.sparse_first_row[round][j]));
        j = j + 1;
    }
    let mut out: [A; 16] = t;
    out[0] = acc;
    let mut i: usize = 1;
    while i < 16
        invariant
            1 <= i <= 16,
            round < 20,
            ts == t@,
            out@[0] == acc,
            forall|m: int|
                1 <= m < i ==> #[trigger] out@[m] == ts[m].plus_spec(
                    first.times_base_spec(k.sparse_v@[round as int]@[m - 1]),
                ),
        decreases 16 - i,
    {
        out[i] = t[i].plus(first.times_base(k.sparse_v[round][i - 1]));
        i = i + 1;
    }
    assert(ts =~= state@.update(0, first));
    assert(out@ =~= partial_step(*k, round as int, state@, cell));
    out
}

/// The state after the last two full rounds, with the input added.
pub fn generate_last<A: Algebra>(k: &PoseidonConstants, input: &[A; 16], state: &[A; 16]) -> (r: [A; 16])
    ensures
        r@ == last_state(*k, input@, state@),
{
    let t = generate_2_full_rounds(k, &k.ending[2], &k.ending[3], state);
    let mut out: [A; 16] = t;
    let mut i: usize = 0;
    while i < 16
        invariant
            i <= 16,
            forall|m: int| 0 <= m < i ==> #[trigger] out@[m] == t@[m].plus_spec(input@[m]),
        decreases 16 - i,
    {
        out[i] = t[i].plus(input[i]);
        i = i + 1;
    }
    assert(out@ =~= last_state(*k, input@, state@));
    out
}

/// The trace of the compression of `input`.
pub fn dedicated_poseidon_trace(k: &PoseidonConstants, input: [F; 16]) -> (r: DedicatedPoseidonCols<F>)
    ensures
        r.values_spec() == trace_spec(*k, input@),
        r.inputs@ == input@,
        r.outputs@ == compress_spec(*k, input@),
{
    let b0 = generate_2_full_rounds(k, &k.initial[0], &k.initial[1], &input);
    let b1 = generate_2_full_rounds(k, &k.initial[2], &k.initial[3], &b0);
    let start = generate_enter_partial(k, &b1);
    let mut state: [F; 16] = start;
    let mut partial_rounds: [F; 20] = [F::zero(); 20];
    let mut round: usize = 0;
    let ghost mut cells: Seq<F> = Seq::empty();
    while round < 20
        invariant
            round <= 20,
            cells == partial_cells(*k, start@, round as nat),
            cells.len() == round,
            state@ == partial_state(*k, start@, cells, round as nat),
            forall|m: int| 0 <= m < round ==> partial_rounds@[m] == cells[m],
        decreases 20 - round,
    {
        let cell = state[0].cube();
        partial_rounds[round] = cell;
        proof {
            let next = cells.push(cell);
            lemma_partial_state_prefix(*k, start@, cells, next, round as nat);
            cells = next;
        }
        state = sparse_mat(k, round, &state, cell);
        round = round + 1;
    }
    assert(partial_rounds@ =~= trace_cells(*k, input@));
    let e = generate_2_full_rounds(k, &k.ending[0], &k.ending[1], &state);
    let last = generate_last(k, &input, &e);
    let mut outputs: [F; 8] = [F::zero(); 8];
    let mut i: usize = 0;
    while i < 8
        invariant
            i <= 8,
            forall|m: int| 0 <= m < i ==> outputs@[m] == last@[m],
        decreases 8 - i,
    {
        outputs[i] = last[i];
        i = i + 1;
    }
    assert(outputs@ =~= compress_spec(*k, input@));
    DedicatedPoseidonCols {
        inputs: input,
        beginning_full_rounds: [b0, b1],
        partial_rounds,
        ending_full_rounds: [e],
        outputs,
    }
}

/// The state before round `r` depends on the first `r` cubes alone.
pub proof fn lemma_partial_state_prefix<A: Algebra>(k: PoseidonConstants, s: Seq<A>, c1: Seq<A>, c2: Seq<A>, r: nat)
    requires
        forall|m: int| 0 <= m < r ==> #[trigger] c1[m] == c2[m],
    ensures
        partial_state(k, s, c1, r) == partial_state(k, s, c2, r),
    decreases r,
{
    if r > 0 {
        lemma_partial_state_prefix(k, s, c1, c2, (r - 1) as nat);
        assert(c1[r - 1] == c2[r - 1]);
    }
}

/// The cubes are as many as the rounds, and each is the cube of the first element of its state.
pub proof fn lemma_partial_cells<A: Algebra>(k: PoseidonConstants, s: Seq<A>, n: nat)
    ensures
        partial_cells(k, s, n).len() == n,
        forall|r: int|
            0 <= r < n ==> #[trigger] partial_cells(k, s, n)[r] == cube_spec(
                partial_state(k, s, partial_cells(k, s, n), r as nat)[0],
            ),
    decreases n,
{
    if n > 0 {
        let m: nat = (n - 1) as nat;
        lemma_partial_cells(k, s, m);
        let before = partial_cells(k, s, m);
        let all = partial_cells(k, s, n);
        assert forall|r: int| 0 <= r < n implies #[trigger] all[r] == cube_spec(
            partial_state(k, s, all, r as nat)[0],
        ) by {
            lemma_partial_state_prefix(k, s, before, all, r as nat);
            if r < m {
                assert(all[r] == before[r]);
            }
        }
    }
}

/// The compression of sixteen field elements to a digest.
pub fn compress(k: &PoseidonConstants, input: [F; 16]) -> (r: [F; 8])
    ensures
        r@ == compress_spec(*k, input@),
{
    let row = dedicated_poseidon_trace(k, input);
    row.outputs
}

} // verus!
