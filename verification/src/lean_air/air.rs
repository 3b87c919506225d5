//! The constraints on one row of the hash table.
use crate::algebra::{Algebra, Ring};
use crate::ext::EF;
use crate::field;
use crate::field::F;
use crate::poseidon;
use crate::poseidon::{
    DedicatedPoseidonCols, PoseidonConstants, DEDICATED_HASH_NUM_COLS, DEDICATED_HASH_PARTIAL_ROUNDS,
};
use crate::sums;
use vstd::prelude::*;

verus! {

/// The number of constraints on one row.
pub const DEDICATED_HASH_N_CONSTRAINTS: usize = 76;

/// The degree of the constraints.
pub const DEDICATED_HASH_AIR_DEGREE: usize = 9;

/// The degree of the constraints of the partial rounds.
pub const DEDICATED_HASH_LOW_DEGREE: usize = 3;

/// The parts of a row.
pub open spec fn row_inputs<A>(row: Seq<A>) -> Seq<A> {
    row.subrange(0, 16)
}

pub open spec fn row_beginning<A>(row: Seq<A>, pair: int) -> Seq<A> {
    row.subrange(16 + 16 * pair, 32 + 16 * pair)
}

pub open spec fn row_cells<A>(row: Seq<A>) -> Seq<A> {
    row.subrange(48, 68)
}

pub open spec fn row_ending<A>(row: Seq<A>) -> Seq<A> {
    row.subrange(68, 84)
}

pub open spec fn row_outputs<A>(row: Seq<A>) -> Seq<A> {
    row.subrange(84, 92)
}

/// The differences of two states.
pub open spec fn differences<A: Ring>(n: nat, x: Seq<A>, y: Seq<A>) -> Seq<A> {
    Seq::new(n, |i: int| x[i].minus_spec(y[i]))
}

/// The constraints of the beginning full rounds: the stored states follow from the inputs and from
/// one another.
pub open spec fn beginning_constraints<A: Ring>(k: PoseidonConstants, row: Seq<A>) -> Seq<A> {
    differences(
        16,
        poseidon::two_full_rounds(k, k.initial@[0]@, k.initial@[1]@, row_inputs(row)),
        row_beginning(row, 0),
    ) + differences(
        16,
        poseidon::two_full_rounds(k, k.initial@[2]@, k.initial@[3]@, row_beginning(row, 0)),
        row_beginning(row, 1),
    )
}

/// The state before partial round `r`, by the stored cubes.
pub open spec fn air_partial_state<A: Ring>(k: PoseidonConstants, row: Seq<A>, r: nat) -> Seq<A> {
    poseidon::partial_state(k, poseidon::enter_partial(k, row_beginning(row, 1)), row_cells(row), r)
}

/// The constraints of the partial rounds: each stored cube is the cube of the first element.
pub open spec fn partial_constraints<A: Ring>(k: PoseidonConstants, row: Seq<A>) -> Seq<A> {
    Seq::new(
        20,
        |r: int| poseidon::cube_spec(air_partial_state(k, row, r as nat)[0]).minus_spec(row_cells(row)[r]),
    )
}

/// The constraints of the ending full rounds, from the state after the partial rounds.
pub open spec fn ending_constraints<A: Ring>(k: PoseidonConstants, row: Seq<A>, after: Seq<A>) -> Seq<A> {
    differences(16, poseidon::two_full_rounds(k, k.ending@[0]@, k.ending@[1]@, after), row_ending(row))
        + differences(8, poseidon::last_state(k, row_inputs(row), row_ending(row)), row_outputs(row))
}

/// The values of all constraints on a row, in the order in which they are combined.
pub open spec fn constraints_spec<A: Ring>(k: PoseidonConstants, row: Seq<A>) -> Seq<A> {
    beginning_constraints(k, row) + partial_constraints(k, row) + ending_constraints(
        k,
        row,
        air_partial_state(k, row, 20),
    )
}

/// The combination of the constraints with the powers of the batching challenge.
pub open spec fn combined_constraints(k: PoseidonConstants, alphas: Seq<EF>, row: Seq<EF>) -> EF {
    sums::sum(76, |i: int| alphas[i] * constraints_spec(k, row)[i])
}

/// The row of the compression of any input satisfies every constraint.
pub proof fn law_honest_row_satisfies_constraints(k: PoseidonConstants, input: Seq<F>)
    requires
        input.len() == 16,
    ensures
        constraints_spec(k, poseidon::trace_spec(k, input)).len() == 76,
        forall|i: int|
            0 <= i < 76 ==> #[trigger] constraints_spec(k, poseidon::trace_spec(k, input))[i] == F::zero_spec(),
{
    let row = poseidon::trace_spec(k, input);
    let start = poseidon::enter_partial(k, poseidon::beginning_state(k, input, 1));
    let cells = poseidon::trace_cells(k, input);
    poseidon::lemma_partial_cells(k, start, 20);
    assert(row_inputs(row) =~= input);
    assert(row_beginning(row, 0) =~= poseidon::beginning_state(k, input, 0));
    assert(row_beginning(row, 1) =~= poseidon::beginning_state(k, input, 1));
    assert(row_cells(row) =~= cells);
    assert(row_ending(row) =~= poseidon::ending_state(k, input));
    assert(row_outputs(row) =~= poseidon::compress_spec(k, input));
    assert forall|i: int| 0 <= i < 76 implies #[trigger] constraints_spec(k, row)[i] == F::zero_spec() by {
        if i < 16 {
            field::lemma_sub_self(row_beginning(row, 0)[i]);
        } else if i < 32 {
            field::lemma_sub_self(row_beginning(row, 1)[i - 16]);
        } else if i < 52 {
            field::lemma_sub_self(row_cells(row)[i - 32]);
        } else if i < 68 {
            field::lemma_sub_self(row_ending(row)[i - 52]);
        } else {
            field::lemma_sub_self(row_outputs(row)[i - 68]);
        }
    }
}

/// Elements whose difference is zero are the same.
proof fn lemma_no_difference(a: F, b: F)
    requires
        a.canonical(),
        b.canonical(),
        a - b == F::zero_spec(),
    ensures
        a == b,
{
    field::lemma_sub_zero_iff(a, b);
}

/// The values of constraints are canonical.
pub proof fn lemma_constraint_canonical(k: PoseidonConstants, row: Seq<F>, i: int)
    requires
        row.len() == 92,
        0 <= i < 76,
    ensures
        constraints_spec(k, row)[i].canonical(),
{
    let after = air_partial_state(k, row, 20);
    let all = constraints_spec(k, row);
    let (a, b) = if i < 16 {
        (
            poseidon::two_full_rounds(k, k.initial@[0]@, k.initial@[1]@, row_inputs(row))[i],
            row_beginning(row, 0)[i],
        )
    } else if i < 32 {
        (
            poseidon::two_full_rounds(k, k.initial@[2]@, k.initial@[3]@, row_beginning(row, 0))[i - 16],
            row_beginning(row, 1)[i - 16],
        )
    } else if i < 52 {
        (poseidon::cube_spec(air_partial_state(k, row, (i - 32) as nat)[0]), row_cells(row)[i - 32])
    } else if i < 68 {
        (poseidon::two_full_rounds(k, k.ending@[0]@, k.ending@[1]@, after)[i - 52], row_ending(row)[i - 52])
    } else {
        (poseidon::last_state(k, row_inputs(row), row_ending(row))[i - 68], row_outputs(row)[i - 68])
    };
    assert(all[i] == a.minus_spec(b));
    field::lemma_of_val(a.val() - b.val());
}

/// The elements of a state after two full rounds are canonical.
proof fn lemma_rounds_canonical(k: PoseidonConstants, c1: Seq<F>, c2: Seq<F>, s: Seq<F>, i: int)
    requires
        0 <= i < 16,
    ensures
        poseidon::two_full_rounds(k, c1, c2, s)[i].canonical(),
{
    let first = poseidon::full_round(k, c1, s);
    let cubes = Seq::new(16, |i: int| poseidon::cube_spec(first[i].plus_base_spec(c2[i])));
    let row = k.mds@[i]@;
    let below = poseidon::dot(cubes, row, 15);
    let last = cubes[15].times_base_spec(row[15]);
    assert(poseidon::dot(cubes, row, 16) == below.plus_spec(last));
    field::lemma_of_val(below.val() + last.val());
}

/// Cubes that follow from their states are those of the partial rounds.
proof fn lemma_cells_determined(k: PoseidonConstants, start: Seq<F>, cells: Seq<F>, n: nat)
    requires
        n <= cells.len(),
        forall|r: int|
            0 <= r < n ==> #[trigger] cells[r] == poseidon::cube_spec(
                poseidon::partial_state(k, start, cells, r as nat)[0],
            ),
    ensures
        cells.take(n as int) == poseidon::partial_cells(k, start, n),
    decreases n,
{
    if n > 0 {
        let m: nat = (n - 1) as nat;
        lemma_cells_determined(k, start, cells, m);
        let before = poseidon::partial_cells(k, start, m);
        poseidon::lemma_partial_cells(k, start, m);
        assert forall|i: int| 0 <= i < m implies #[trigger] before[i] == cells[i] by {
            assert(cells.take(m as int)[i] == before[i]);
        }
        poseidon::lemma_partial_state_prefix(k, start, before, cells, m);
        assert(cells[m as int] == poseidon::cube_spec(poseidon::partial_state(k, start, cells, m)[0]));
        assert(cells.take(n as int) =~= before.push(cells[m as int]));
    }
}

/// The constraints determine a row by its inputs: a row that satisfies all of them is the trace of
/// the compression of its inputs.
pub proof fn law_constraints_determine_row(k: PoseidonConstants, row: Seq<F>)
    requires
        row.len() == 92,
        forall|c: int| 0 <= c < 92 ==> (#[trigger] row[c]).canonical(),
        forall|i: int| 0 <= i < 76 ==> #[trigger] constraints_spec(k, row)[i] == F::zero_spec(),
    ensures
        row == poseidon::trace_spec(k, row.subrange(0, 16)),
{
    let all = constraints_spec(k, row);
    let input = row_inputs(row);
    let (b0, b1) = (row_beginning(row, 0), row_beginning(row, 1));
    let s0 = poseidon::two_full_rounds(k, k.initial@[0]@, k.initial@[1]@, input);
    assert forall|i: int| 0 <= i < 16 implies b0[i] == s0[i] by {
        assert(all[i] == s0[i].minus_spec(b0[i]));
        assert(b0[i] == row[16 + i]);
        lemma_rounds_canonical(k, k.initial@[0]@, k.initial@[1]@, input, i);
        lemma_no_difference(s0[i], b0[i]);
    }
    assert(b0 =~= s0);
    let s1 = poseidon::two_full_rounds(k, k.initial@[2]@, k.initial@[3]@, b0);
    assert forall|i: int| 0 <= i < 16 implies b1[i] == s1[i] by {
        assert(all[16 + i] == s1[i].minus_spec(b1[i]));
        assert(b1[i] == row[32 + i]);
        lemma_rounds_canonical(k, k.initial@[2]@, k.initial@[3]@, b0, i);
        lemma_no_difference(s1[i], b1[i]);
    }
    assert(b1 =~= s1);
    let start = poseidon::enter_partial(k, b1);
    let cells = row_cells(row);
    assert forall|r: int| 0 <= r < 20 implies #[trigger] cells[r] == poseidon::cube_spec(
        poseidon::partial_state(k, start, cells, r as nat)[0],
    ) by {
        let first = poseidon::partial_state(k, start, cells, r as nat)[0];
        let cube = poseidon::cube_spec(first);
        assert(all[32 + r] == partial_constraints(k, row)[r]);
        assert(all[32 + r] == cube.minus_spec(cells[r]));
        assert(cells[r] == row[48 + r]);
        field::lemma_of_val((first * first).val() * first.val());
        lemma_no_difference(cube, cells[r]);
    }
    lemma_cells_determined(k, start, cells, 20);
    assert(cells.take(20) =~= cells);
    let after = air_partial_state(k, row, 20);
    let ending = row_ending(row);
    let s2 = poseidon::two_full_rounds(k, k.ending@[0]@, k.ending@[1]@, after);
    assert forall|i: int| 0 <= i < 16 implies ending[i] == s2[i] by {
        assert(all[52 + i] == s2[i].minus_spec(ending[i]));
        assert(ending[i] == row[68 + i]);
        lemma_rounds_canonical(k, k.ending@[0]@, k.ending@[1]@, after, i);
        lemma_no_difference(s2[i], ending[i]);
    }
    assert(ending =~= s2);
    let outputs = row_outputs(row);
    let last = poseidon::last_state(k, input, ending);
    let t = poseidon::two_full_rounds(k, k.ending@[2]@, k.ending@[3]@, ending);
    assert forall|i: int| 0 <= i < 8 implies outputs[i] == last[i] by {
        assert(all[68 + i] == last[i].minus_spec(outputs[i]));
        assert(outputs[i] == row[84 + i]);
        field::lemma_of_val(t[i].val() + input[i].val());
        lemma_no_difference(last[i], outputs[i]);
    }
    assert(outputs =~= poseidon::compress_spec(k, input));
    assert(row =~= input + b0 + b1 + cells + ending + outputs);
}

/// Reads a row.
pub fn read_row<A: Algebra>(values: &Vec<A>) -> (r: DedicatedPoseidonCols<A>)
    requires
        values@.len() == DEDICATED_HASH_NUM_COLS,
    ensures
        r.values_spec() == values@,
        r.inputs@ == row_inputs(values@),
        r.beginning_full_rounds@[0]@ == row_beginning(values@, 0),
        r.beginning_full_rounds@[1]@ == row_beginning(values@, 1),
        r.partial_rounds@ == row_cells(values@),
        r.ending_full_rounds@[0]@ == row_ending(values@),
        r.outputs@ == row_outputs(values@),
{
    let inputs = read_state(values, 0);
    let b0 = read_state(values, 16);
    let b1 = read_state(values, 32);
    let mut partial_rounds: [A; 20] = [A::zero_value(); 20];
    let mut i: usize = 0;
    while i < 20
        invariant
            i <= 20,
            values@.len() == 92,
            forall|m: int| 0 <= m < i ==> partial_rounds@[m] == values@[48 + m],
        decreases 20 - i,
    {
        partial_rounds[i] = values[48 + i];
        i = i + 1;
    }
    let e = read_state(values, 68);
    let mut outputs: [A; 8] = [A::zero_value(); 8];
    let mut i: usize = 0;
    while i < 8
        invariant
            i <= 8,
            values@.len() == 92,
            forall|m: int| 0 <= m < i ==> outputs@[m] == values@[84 + m],
        decreases 8 - i,
    {
        outputs[i] = values[84 + i];
        i = i + 1;
    }
    let r = DedicatedPoseidonCols {
        inputs,
        beginning_full_rounds: [b0, b1],
        partial_rounds,
        ending_full_rounds: [e],
        outputs,
    };
    assert(inputs@ =~= row_inputs(values@));
    assert(b0@ =~= row_beginning(values@, 0));
    assert(b1@ =~= row_beginning(values@, 1));
    assert(partial_rounds@ =~= row_cells(values@));
    assert(e@ =~= row_ending(values@));
    assert(outputs@ =~= row_outputs(values@));
    assert(r.values_spec() =~= values@);
    r
}

fn read_state<A: Algebra>(values: &Vec<A>, start: usize) -> (r: [A; 16])
    requires
        start + 16 <= values@.len(),
    ensures
        r@ == values@.subrange(start as int, start + 16),
{
    let mut out: [A; 16] = [A::zero_value(); 16];
    let mut i: usize = 0;
    let n: usize = values.len();
    while i < 16
        invariant
            i <= 16,
            n == values@.len(),
            start + 16 <= n,
            forall|m: int| 0 <= m < i ==> out@[m] == values@[start + m],
        decreases 16 - i,
    {
        out[i] = values[start + i];
        i = i + 1;
    }
    assert(out@ =~= values@.subrange(start as int, start + 16));
    out
}

fn push_differences<A: Algebra>(out: &mut Vec<A>, x: &[A; 16], y: &[A; 16])
    ensures
        final(out)@ == old(out)@ + differences(16, x@, y@),
{
    let ghost before = out@;
    let mut i: usize = 0;
    while i < 16
        invariant
            i <= 16,
            out@ == before + differences(i as nat, x@, y@),
        decreases 16 - i,
    {
        out.push(x[i].minus(y[i]));
        i = i + 1;
        assert(out@ =~= before + differences(i as nat, x@, y@));
    }
}

/// The constraints of the beginning full rounds.
pub fn eval_beginning<A: Algebra>(k: &PoseidonConstants, cols: &DedicatedPoseidonCols<A>) -> (r: Vec<A>)
    requires
        cols.values_spec().len() == DEDICATED_HASH_NUM_COLS,
    ensures
        r@ == beginning_constraints(*k, cols.values_spec()),
{
    let ghost row = cols.values_spec();
    proof {
        assert(row_inputs(row) =~= cols.inputs@);
        assert(row_beginning(row, 0) =~= cols.beginning_full_rounds@[0]@);
        assert(row_beginning(row, 1) =~= cols.beginning_full_rounds@[1]@);
    }
    let mut out: Vec<A> = Vec::new();
    let s0 = poseidon::generate_2_full_rounds(k, &k.initial[0], &k.initial[1], &cols.inputs);
    push_differences(&mut out, &s0, &cols.beginning_full_rounds[0]);
    let s1 = poseidon::generate_2_full_rounds(k, &k.initial[2], &k.initial[3], &cols.beginning_full_rounds[0]);
    push_differences(&mut out, &s1, &cols.beginning_full_rounds[1]);
    assert(out@ =~= beginning_constraints(*k, row));
    out
}

/// The constraints of the partial rounds and the state after them.
pub fn eval_partial<A: Algebra>(k: &PoseidonConstants, cols: &DedicatedPoseidonCols<A>) -> (r: (Vec<A>, [A; 16]))
    requires
        cols.values_spec().len() == DEDICATED_HASH_NUM_COLS,
    ensures
        r.0@ == partial_constraints(*k, cols.values_spec()),
        r.1@ == air_partial_state(*k, cols.values_spec(), 20),
{
    let ghost row = cols.values_spec();
    proof {
        assert(row_beginning(row, 1) =~= cols.beginning_full_rounds@[1]@);
        assert(row_cells(row) =~= cols.partial_rounds@);
    }
    let mut out: Vec<A> = Vec::new();
    let mut state = poseidon::generate_enter_partial(k, &cols.beginning_full_rounds[1]);
    let mut round: usize = 0;
    while round < DEDICATED_HASH_PARTIAL_ROUNDS
        invariant
            round <= 20,
            row_cells(row) == cols.partial_rounds@,
            state@ == air_partial_state(*k, row, round as nat),
            out@.len() == round,
            forall|r: int| 0 <= r < round ==> #[trigger] out@[r] == partial_constraints(*k, row)[r],
        decreases 20 - round,
    {
        let first = state[0];
        let cube = first.times(first).times(first);
        out.push(cube.minus(cols.partial_rounds[round]));
        state = poseidon::sparse_mat(k, round, &state, cols.partial_rounds[round]);
        round = round + 1;
    }
    assert(out@ =~= partial_constraints(*k, row));
    (out, state)
}

/// The constraints of the ending full rounds, from the state after the partial rounds.
pub fn eval_ending<A: Algebra>(
    k: &PoseidonConstants,
    cols: &DedicatedPoseidonCols<A>,
    after: &[A; 16],
) -> (r: Vec<A>)
    requires
        cols.values_spec().len() == DEDICATED_HASH_NUM_COLS,
    ensures
        r@ == ending_constraints(*k, cols.values_spec(), after@),
{
    let ghost row = cols.values_spec();
    proof {
        assert(row_inputs(row) =~= cols.inputs@);
        assert(row_ending(row) =~= cols.ending_full_rounds@[0]@);
        assert(row_outputs(row) =~= cols.outputs@);
    }
    let mut out: Vec<A> = Vec::new();
    let s = poseidon::generate_2_full_rounds(k, &k.ending[0], &k.ending[1], after);
    push_differences(&mut out, &s, &cols.ending_full_rounds[0]);
    let ghost before = out@;
    let last = poseidon::generate_last(k, &cols.inputs, &cols.ending_full_rounds[0]);
    let mut i: usize = 0;
    while i < 8
        invariant
            i <= 8,
            out@ == before + differences(i as nat, last@, cols.outputs@),
        decreases 8 - i,
    {
        out.push(last[i].minus(cols.outputs[i]));
        i = i + 1;
        assert(out@ =~= before + differences(i as nat, last@, cols.outputs@));
    }
    assert(out@ =~= ending_constraints(*k, row, after@));
    out
}

/// The values of all constraints on a row.
pub fn eval_dedicated_poseidon1_16<A: Algebra>(k: &PoseidonConstants, cols: &DedicatedPoseidonCols<A>) -> (r: Vec<A>)
    requires
        cols.values_spec().len() == DEDICATED_HASH_NUM_COLS,
    ensures
        r@ == constraints_spec(*k, cols.values_spec()),
        r@.len() == DEDICATED_HASH_N_CONSTRAINTS,
{
    let mut out = eval_beginning(k, cols);
    let (low, state) = eval_partial(k, cols);
    let high = eval_ending(k, cols, &state);
    let mut i: usize = 0;
    let ghost b = out@;
    while i < low.len()
        invariant
            i <= low@.len(),
            out@ == b + low@.subrange(0, i as int),
        decreases low@.len() - i,
    {
        out.push(low[i]);
        i = i + 1;
        assert(out@ =~= b + low@.subrange(0, i as int));
    }
    let ghost b2 = out@;
    let mut i: usize = 0;
    while i < high.len()
        invariant
            i <= high@.len(),
            out@ == b2 + high@.subrange(0, i as int),
        decreases high@.len() - i,
    {
        out.push(high[i]);
        i = i + 1;
        assert(out@ =~= b2 + high@.subrange(0, i as int));
    }
    assert(out@ =~= constraints_spec(*k, cols.values_spec()));
    out
}

/// The constraint system of the hash table.
#[derive(Clone, Copy, Debug, PartialEq, Eq, Structural)]
pub struct LeanAirDedicatedHashAir;

impl LeanAirDedicatedHashAir {
    /// The degree of the constraints.
    pub fn degree_air(&self) -> (r: usize)
        ensures
            r == 9,
    {
        DEDICATED_HASH_AIR_DEGREE
    }

    /// The number of columns of a row.
    pub fn n_columns(&self) -> (r: usize)
        ensures
            r == DEDICATED_HASH_NUM_COLS,
            r == 92,
    {
        DEDICATED_HASH_NUM_COLS
    }

    /// The number of constraints.
    pub fn n_constraints(&self) -> (r: usize)
        ensures
            r == 76,
    {
        DEDICATED_HASH_N_CONSTRAINTS
    }

    /// The columns of the next row that the constraints read: none.
    pub fn down_column_indexes(&self) -> (r: Vec<usize>)
        ensures
            r@.len() == 0,
    {
        Vec::new()
    }

    /// The degree and the number of the constraints of the partial rounds.
    pub fn low_degree_air(&self) -> (r: Option<(usize, usize)>)
        ensures
            r == Some((3usize, DEDICATED_HASH_PARTIAL_ROUNDS)),
    {
        Some((DEDICATED_HASH_LOW_DEGREE, DEDICATED_HASH_PARTIAL_ROUNDS))
    }

    /// The values of all constraints on the row `up`.
    pub fn eval<A: Algebra>(&self, k: &PoseidonConstants, up: &Vec<A>) -> (r: Vec<A>)
        requires
            up@.len() == DEDICATED_HASH_NUM_COLS,
        ensures
            r@ == constraints_spec(*k, up@),
            r@.len() == DEDICATED_HASH_N_CONSTRAINTS,
    {
        let cols = read_row(up);
        eval_dedicated_poseidon1_16(k, &cols)
    }

    /// The combination of the constraints on the row `point` with `alphas`.
    pub fn eval_extension(&self, k: &PoseidonConstants, point: &Vec<EF>, alphas: &Vec<EF>) -> (r: EF)
        requires
            point@.len() == DEDICATED_HASH_NUM_COLS,
            alphas@.len() >= DEDICATED_HASH_N_CONSTRAINTS,
        ensures
            r == combined_constraints(*k, alphas@, point@),
    {
        let values = self.eval(k, point);
        let mut acc = EF::zero();
        let mut i: usize = 0;
        let ghost f = |i: int| alphas@[i] * constraints_spec(*k, point@)[i];
        while i < DEDICATED_HASH_N_CONSTRAINTS
            invariant
                i <= 76,
                values@.len() == 76,
                alphas@.len() >= 76,
                values@ == constraints_spec(*k, point@),
                f == (|i: int| alphas@[i] * constraints_spec(*k, point@)[i]),
                acc == sums::sum(i as nat, f),
            decreases 76 - i,
        {
            acc = acc.add(alphas[i].mul(values[i]));
            i = i + 1;
        }
        acc
    }
}

} // verus!
