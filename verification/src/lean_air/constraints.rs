//! What each constraint on a hash row compares, and how the constraints are combined.
use super::air;
use crate::algebra::Ring;
use crate::ext;
use crate::ext::EF;
use crate::field::F;
use crate::permutation;
use crate::poseidon;
use crate::poseidon::PoseidonConstants;
use crate::sums;
use vstd::prelude::*;

verus! {

/// The state before partial round `r`, from the cubes that a row holds in place of those of the state.
pub open spec fn chained(k: PoseidonConstants, start: Seq<F>, cubes: Seq<F>, r: nat) -> Seq<F>
    decreases r,
{
    if r == 0 {
        start
    } else {
        permutation::applied(
            permutation::sparse_matrix(k, r - 1),
            chained(k, start, cubes, (r - 1) as nat).update(0, cubes[r - 1] + permutation::scalar(k, r - 1)),
        )
    }
}

/// The state that enters the partial rounds.
pub open spec fn entering(k: PoseidonConstants, s: Seq<F>) -> Seq<F> {
    permutation::applied(
        permutation::entries(k.sparse_m_i),
        permutation::added(s, k.sparse_first_round@),
    )
}

proof fn lemma_applied_canonical(m: spec_fn(int, int) -> F, s: Seq<F>)
    ensures
        permutation::applied(m, s).len() == 16,
        forall|i: int| 0 <= i < 16 ==> (#[trigger] permutation::applied(m, s)[i]).canonical(),
{
    assert forall|i: int| 0 <= i < 16 implies (#[trigger] permutation::applied(m, s)[i]).canonical() by {
        permutation::lemma_total_canonical(16, |j: int| m(i, j) * s[j]);
    }
}

proof fn lemma_chained(k: PoseidonConstants, start: Seq<F>, cubes: Seq<F>, r: nat)
    requires
        r <= 20,
        start.len() == 16,
        forall|i: int| 0 <= i < 16 ==> (#[trigger] start[i]).canonical(),
        forall|i: int| 0 <= i < 20 ==> (#[trigger] cubes[i]).canonical(),
    ensures
        poseidon::partial_state(k, start, cubes, r) == chained(k, start, cubes, r),
        chained(k, start, cubes, r).len() == 16,
        forall|i: int| 0 <= i < 16 ==> (#[trigger] chained(k, start, cubes, r)[i]).canonical(),
    decreases r,
{
    if r > 0 {
        let p: nat = (r - 1) as nat;
        lemma_chained(k, start, cubes, p);
        let s = chained(k, start, cubes, p);
        assert(cubes[p as int].canonical());
        permutation::law_partial_round_is_sparse_product(k, p as int, s, cubes[p as int]);
        lemma_applied_canonical(
            permutation::sparse_matrix(k, p as int),
            s.update(0, cubes[p as int] + permutation::scalar(k, p as int)),
        );
    }
}

proof fn lemma_entering(k: PoseidonConstants, s: Seq<F>)
    ensures
        poseidon::enter_partial(k, s) == entering(k, s),
{
    let sums = Seq::new(16, |i: int| s[i].plus_base_spec(k.sparse_first_round@[i]));
    assert(sums =~= permutation::added(s, k.sparse_first_round@));
    permutation::lemma_mat_vec(k.sparse_m_i, sums);
}

/// The constraints compare, in the order of the columns, what the rounds make of the values of a row with
/// the values that stand behind them, the computed value less the one that is held: two full rounds of
/// the input, two more of their result, the cube of every partial round, two full rounds of what the
/// partial ones leave, and the last two with the input added.
pub proof fn law_constraints_compare_states(k: PoseidonConstants, row: Seq<F>, i: int, r: int)
    requires
        row.len() == 92,
        forall|c: int| 0 <= c < 92 ==> (#[trigger] row[c]).canonical(),
        0 <= i < 16,
        0 <= r < 20,
    ensures
        ({
            let m = permutation::entries(k.mds);
            let c = air::constraints_spec(k, row);
            let start = entering(k, row.subrange(32, 48));
            let cubes = row.subrange(48, 68);
            &&& c.len() == 76
            &&& c[i] == permutation::round(
                m,
                k.initial@[1]@,
                true,
                permutation::round(m, k.initial@[0]@, true, row.subrange(0, 16)),
            )[i] - row[16 + i]
            &&& c[16 + i] == permutation::round(
                m,
                k.initial@[3]@,
                true,
                permutation::round(m, k.initial@[2]@, true, row.subrange(16, 32)),
            )[i] - row[32 + i]
            &&& c[32 + r] == chained(k, start, cubes, r as nat)[0].pow(3) - row[48 + r]
            &&& c[52 + i] == permutation::round(
                m,
                k.ending@[1]@,
                true,
                permutation::round(m, k.ending@[0]@, true, chained(k, start, cubes, 20)),
            )[i] - row[68 + i]
            &&& i < 8 ==> c[68 + i] == permutation::round(
                m,
                k.ending@[3]@,
                true,
                permutation::round(m, k.ending@[2]@, true, row.subrange(68, 84)),
            )[i] + row[i] - row[84 + i]
        }),
{
    let m = permutation::entries(k.mds);
    let c = air::constraints_spec(k, row);
    let start = entering(k, row.subrange(32, 48));
    let cubes = row.subrange(48, 68);
    permutation::lemma_full_round(k, k.initial@[0]@, row.subrange(0, 16));
    permutation::lemma_full_round(
        k,
        k.initial@[1]@,
        permutation::round(m, k.initial@[0]@, true, row.subrange(0, 16)),
    );
    permutation::lemma_full_round(k, k.initial@[2]@, row.subrange(16, 32));
    permutation::lemma_full_round(
        k,
        k.initial@[3]@,
        permutation::round(m, k.initial@[2]@, true, row.subrange(16, 32)),
    );
    lemma_entering(k, row.subrange(32, 48));
    lemma_applied_canonical(
        permutation::entries(k.sparse_m_i),
        permutation::added(row.subrange(32, 48), k.sparse_first_round@),
    );
    assert forall|j: int| 0 <= j < 20 implies (#[trigger] cubes[j]).canonical() by {
        assert(row[48 + j].canonical());
    }
    lemma_chained(k, start, cubes, r as nat);
    lemma_chained(k, start, cubes, 20);
    permutation::lemma_cube(chained(k, start, cubes, r as nat)[0]);
    permutation::lemma_full_round(k, k.ending@[0]@, chained(k, start, cubes, 20));
    permutation::lemma_full_round(
        k,
        k.ending@[1]@,
        permutation::round(m, k.ending@[0]@, true, chained(k, start, cubes, 20)),
    );
    permutation::lemma_full_round(k, k.ending@[2]@, row.subrange(68, 84));
    permutation::lemma_full_round(
        k,
        k.ending@[3]@,
        permutation::round(m, k.ending@[2]@, true, row.subrange(68, 84)),
    );
}

/// The combination weighs constraint `i` with coefficient `i` and with no other: where the others are
/// zero and it is one, what is left is the constraint.
pub proof fn law_combination_picks_constraint(k: PoseidonConstants, alphas: Seq<EF>, row: Seq<EF>, i: int)
    requires
        0 <= i < 76,
        alphas[i] == EF::one_spec(),
        forall|j: int| 0 <= j < 76 && j != i ==> #[trigger] alphas[j] == EF::zero_spec(),
    ensures
        air::combined_constraints(k, alphas, row) == air::constraints_spec(k, row)[i],
{
    let c = air::constraints_spec(k, row);
    let f = |j: int| alphas[j] * air::constraints_spec(k, row)[j];
    assert(c[i].canonical()) by {
        lemma_constraint_canonical(k, row, i);
    }
    ext::lemma_mul_one(c[i]);
    assert forall|j: int| 0 <= j < 76 && j != i implies #[trigger] f(j) == EF::zero_spec() by {
        assert(alphas[j] == EF::zero_spec());
        ext::lemma_mul_zero(c[j]);
    }
    sums::lemma_sum_single(76, i, f);
}

/// The combination is linear in its coefficients.
pub proof fn law_combination_is_linear(k: PoseidonConstants, a: Seq<EF>, b: Seq<EF>, x: EF, row: Seq<EF>)
    requires
        a.len() == b.len(),
        a.len() >= 76,
    ensures
        air::combined_constraints(k, Seq::new(a.len(), |i: int| a[i] + x * b[i]), row) == air::combined_constraints(
            k,
            a,
            row,
        ) + x * air::combined_constraints(k, b, row),
{
    let c = air::constraints_spec(k, row);
    let both = Seq::new(a.len(), |i: int| a[i] + x * b[i]);
    let f = |i: int| a[i] * air::constraints_spec(k, row)[i];
    let g = |i: int| b[i] * air::constraints_spec(k, row)[i];
    let xg = |i: int| x * g(i);
    let h = |i: int| both[i] * air::constraints_spec(k, row)[i];
    assert forall|i: int| 0 <= i < 76 implies #[trigger] h(i) == f(i) + xg(i) by {
        ext::lemma_mul_distrib_left(a[i], x * b[i], c[i]);
        ext::lemma_mul_assoc(x, b[i], c[i]);
    }
    sums::lemma_sum_ext(76, h, |i: int| f(i) + xg(i));
    sums::lemma_sum_add(76, f, xg);
    sums::lemma_sum_mul_left(x, 76, g);
}

proof fn lemma_constraint_canonical(k: PoseidonConstants, row: Seq<EF>, i: int)
    requires
        0 <= i < 76,
    ensures
        air::constraints_spec(k, row)[i].canonical(),
{
    if i < 16 {
        ext::lemma_add_canonical(
            poseidon::two_full_rounds(k, k.initial@[0]@, k.initial@[1]@, air::row_inputs(row))[i],
            air::row_beginning(row, 0)[i],
        );
    } else if i < 32 {
        ext::lemma_add_canonical(
            poseidon::two_full_rounds(k, k.initial@[2]@, k.initial@[3]@, air::row_beginning(row, 0))[i - 16],
            air::row_beginning(row, 1)[i - 16],
        );
    } else if i < 52 {
        ext::lemma_add_canonical(
            poseidon::cube_spec(air::air_partial_state(k, row, (i - 32) as nat)[0]),
            air::row_cells(row)[i - 32],
        );
    } else if i < 68 {
        ext::lemma_add_canonical(
            poseidon::two_full_rounds(k, k.ending@[0]@, k.ending@[1]@, air::air_partial_state(k, row, 20))[i - 52],
            air::row_ending(row)[i - 52],
        );
    } else {
        ext::lemma_add_canonical(
            poseidon::last_state(k, air::row_inputs(row), air::row_ending(row))[i - 68],
            air::row_outputs(row)[i - 68],
        );
    }
}

} // verus!
