//! The constraints along a line, as polynomials, and their degrees.
use super::air;
use super::hom;
use super::rounds;
use crate::algebra::Ring;
use crate::ext::EF;
use crate::field::F;
use crate::poly;
use crate::poseidon;
use crate::poseidon::PoseidonConstants;
use crate::sums;
use vstd::prelude::*;

verus! {

/// Evaluation at `x`.
pub open spec fn evaluation(x: EF) -> spec_fn(Seq<EF>) -> EF {
    |p: Seq<EF>| poly::poly_at(p, x)
}

/// Evaluation keeps the operations.
pub proof fn lemma_evaluation_keeps_operations(x: EF)
    ensures
        hom::keeps_operations(evaluation(x)),
{
    let h = evaluation(x);
    assert forall|a: Seq<EF>, b: Seq<EF>| #[trigger] h(a.plus_spec(b)) == h(a).plus_spec(h(b)) by {
        poly::lemma_at_add(a, b, x);
    }
    assert forall|a: Seq<EF>, b: Seq<EF>| #[trigger] h(a.minus_spec(b)) == h(a).minus_spec(h(b)) by {
        poly::lemma_at_sub(a, b, x);
    }
    assert forall|a: Seq<EF>, b: Seq<EF>| #[trigger] h(a.times_spec(b)) == h(a).times_spec(h(b)) by {
        poly::lemma_at_mul(a, b, x);
    }
    assert forall|a: Seq<EF>, k: F| #[trigger] h(a.plus_base_spec(k)) == h(a).plus_base_spec(k) by {
        poly::lemma_at_plus_base(a, k, x);
    }
    assert forall|a: Seq<EF>, k: F| #[trigger] h(a.times_base_spec(k)) == h(a).times_base_spec(k) by {
        poly::lemma_at_times_base(a, k, x);
    }
}

/// Whether all polynomials have at most `n` coefficients.
pub open spec fn short(s: Seq<Seq<EF>>, n: nat) -> bool {
    forall|i: int| 0 <= i < s.len() ==> (#[trigger] s[i]).len() <= n
}

proof fn lemma_mul_short(a: Seq<EF>, b: Seq<EF>, m: nat, n: nat)
    requires
        a.len() <= m,
        b.len() <= n,
        1 <= m,
        1 <= n,
    ensures
        poly::poly_mul(a, b).len() <= m + n - 1,
    decreases a.len(),
{
    if a.len() > 0 {
        if a.len() == 1 {
            assert(poly::poly_mul(a.drop_first(), b) =~= Seq::<EF>::empty());
        } else {
            lemma_mul_short(a.drop_first(), b, (m - 1) as nat, n);
        }
    }
}

proof fn lemma_cube_short(a: Seq<EF>, n: nat)
    requires
        a.len() <= n,
        1 <= n,
    ensures
        poseidon::cube_spec(a).len() <= 3 * n - 2,
{
    lemma_mul_short(a, a, n, n);
    lemma_mul_short(poly::poly_mul(a, a), a, (2 * n - 1) as nat, n);
}

proof fn lemma_dot_short(s: Seq<Seq<EF>>, row: Seq<F>, m: nat, n: nat)
    requires
        m <= s.len(),
        short(s, n),
    ensures
        poseidon::dot(s, row, m).len() <= n,
    decreases m,
{
    if m > 0 {
        lemma_dot_short(s, row, (m - 1) as nat, n);
        assert(s[m - 1].len() <= n);
    }
}

proof fn lemma_mat_vec_short(mat: Seq<[F; 16]>, s: Seq<Seq<EF>>, n: nat)
    requires
        s.len() == 16,
        short(s, n),
    ensures
        short(poseidon::mat_vec(mat, s), n),
{
    let r = poseidon::mat_vec(mat, s);
    assert forall|i: int| 0 <= i < r.len() implies (#[trigger] r[i]).len() <= n by {
        lemma_dot_short(s, mat[i]@, 16, n);
    }
}

proof fn lemma_full_round_short(k: PoseidonConstants, c: Seq<F>, s: Seq<Seq<EF>>, n: nat)
    requires
        s.len() == 16,
        short(s, n),
        1 <= n,
    ensures
        short(poseidon::full_round(k, c, s), (3 * n - 2) as nat),
{
    let cubes = Seq::new(16, |i: int| poseidon::cube_spec(s[i].plus_base_spec(c[i])));
    assert forall|i: int| 0 <= i < cubes.len() implies (#[trigger] cubes[i]).len() <= 3 * n - 2 by {
        assert(s[i].len() <= n);
        lemma_cube_short(s[i].plus_base_spec(c[i]), n);
    }
    lemma_mat_vec_short(k.mds@, cubes, (3 * n - 2) as nat);
}

/// Two full rounds of lines have degree nine.
proof fn lemma_two_full_rounds_short(k: PoseidonConstants, c1: Seq<F>, c2: Seq<F>, s: Seq<Seq<EF>>)
    requires
        s.len() == 16,
        short(s, 2),
    ensures
        short(poseidon::two_full_rounds(k, c1, c2, s), 10),
{
    lemma_full_round_short(k, c1, s, 2);
    lemma_full_round_short(k, c2, poseidon::full_round(k, c1, s), 4);
}

/// The state that enters the partial rounds is a line where the one before is.
proof fn lemma_enter_partial_short(k: PoseidonConstants, s: Seq<Seq<EF>>)
    requires
        s.len() == 16,
        short(s, 2),
    ensures
        short(poseidon::enter_partial(k, s), 2),
{
    let t = Seq::new(16, |i: int| s[i].plus_base_spec(k.sparse_first_round@[i]));
    assert forall|i: int| 0 <= i < t.len() implies (#[trigger] t[i]).len() <= 2 by {
        assert(s[i].len() <= 2);
    }
    lemma_mat_vec_short(k.sparse_m_i@, t, 2);
}

/// The states of the partial rounds are lines where the stored cubes are.
proof fn lemma_partial_state_short(k: PoseidonConstants, s: Seq<Seq<EF>>, cells: Seq<Seq<EF>>, r: nat)
    requires
        s.len() == 16,
        short(s, 2),
        cells.len() == 20,
        short(cells, 2),
        r <= 20,
    ensures
        poseidon::partial_state(k, s, cells, r).len() == 16,
        short(poseidon::partial_state(k, s, cells, r), 2),
    decreases r,
{
    if r > 0 {
        let b: nat = (r - 1) as nat;
        lemma_partial_state_short(k, s, cells, b);
        let before = poseidon::partial_state(k, s, cells, b);
        let cell = cells[r - 1];
        let first = if r - 1 < 19 {
            cell.plus_base_spec(k.sparse_scalar@[r - 1])
        } else {
            cell
        };
        let t = before.update(0, first);
        assert(first.len() <= 2);
        assert forall|i: int| 0 <= i < t.len() implies (#[trigger] t[i]).len() <= 2 by {
            if i > 0 {
                assert(before[i].len() <= 2);
            }
        }
        lemma_dot_short(t, k.sparse_first_row@[r - 1]@, 16, 2);
        let after = poseidon::partial_state(k, s, cells, r);
        assert forall|i: int| 0 <= i < after.len() implies (#[trigger] after[i]).len() <= 2 by {
            assert(t[i].len() <= 2);
        }
    }
}

proof fn lemma_differences_short(m: nat, x: Seq<Seq<EF>>, y: Seq<Seq<EF>>, n: nat)
    requires
        m <= x.len(),
        m <= y.len(),
        short(x, n),
        short(y, n),
    ensures
        short(air::differences(m, x, y), n),
{
    let d = air::differences(m, x, y);
    assert forall|i: int| 0 <= i < d.len() implies (#[trigger] d[i]).len() <= n by {
        assert(x[i].len() <= n && y[i].len() <= n);
    }
}

/// Along a line, the constraints have degree nine, those of the partial rounds degree three, and the
/// state after the partial rounds is a line.
pub proof fn law_constraint_degrees(k: PoseidonConstants, row: Seq<Seq<EF>>)
    requires
        row.len() == 92,
        short(row, 2),
    ensures
        air::constraints_spec(k, row).len() == 76,
        short(air::constraints_spec(k, row), 10),
        short(air::partial_constraints(k, row), 4),
        air::air_partial_state(k, row, 20).len() == 16,
        short(air::air_partial_state(k, row, 20), 2),
{
    let inputs = air::row_inputs(row);
    let b0 = air::row_beginning(row, 0);
    let b1 = air::row_beginning(row, 1);
    let cells = air::row_cells(row);
    let ending = air::row_ending(row);
    let outputs = air::row_outputs(row);
    lemma_two_full_rounds_short(k, k.initial@[0]@, k.initial@[1]@, inputs);
    lemma_two_full_rounds_short(k, k.initial@[2]@, k.initial@[3]@, b0);
    lemma_differences_short(16, poseidon::two_full_rounds(k, k.initial@[0]@, k.initial@[1]@, inputs), b0, 10);
    lemma_differences_short(16, poseidon::two_full_rounds(k, k.initial@[2]@, k.initial@[3]@, b0), b1, 10);
    lemma_enter_partial_short(k, b1);
    let start = poseidon::enter_partial(k, b1);
    let low = air::partial_constraints(k, row);
    assert forall|r: int| 0 <= r < low.len() implies (#[trigger] low[r]).len() <= 4 by {
        lemma_partial_state_short(k, start, cells, r as nat);
        lemma_cube_short(air::air_partial_state(k, row, r as nat)[0], 2);
        assert(cells[r].len() <= 2);
    }
    lemma_partial_state_short(k, start, cells, 20);
    let after = air::air_partial_state(k, row, 20);
    lemma_two_full_rounds_short(k, k.ending@[0]@, k.ending@[1]@, after);
    lemma_differences_short(16, poseidon::two_full_rounds(k, k.ending@[0]@, k.ending@[1]@, after), ending, 10);
    lemma_two_full_rounds_short(k, k.ending@[2]@, k.ending@[3]@, ending);
    let t = poseidon::two_full_rounds(k, k.ending@[2]@, k.ending@[3]@, ending);
    let last = poseidon::last_state(k, inputs, ending);
    assert forall|i: int| 0 <= i < last.len() implies (#[trigger] last[i]).len() <= 10 by {
        assert(t[i].len() <= 10 && inputs[i].len() <= 2);
    }
    lemma_differences_short(8, last, outputs, 10);
    let all = air::constraints_spec(k, row);
    let ends = air::ending_constraints(k, row, after);
    let begins = air::beginning_constraints(k, row);
    assert forall|i: int| 0 <= i < all.len() implies (#[trigger] all[i]).len() <= 10 by {
        if i < 32 {
            assert(all[i] == begins[i]);
            if i < 16 {
                assert(begins[i] == air::differences(
                    16,
                    poseidon::two_full_rounds(k, k.initial@[0]@, k.initial@[1]@, inputs),
                    b0,
                )[i]);
            } else {
                assert(begins[i] == air::differences(
                    16,
                    poseidon::two_full_rounds(k, k.initial@[2]@, k.initial@[3]@, b0),
                    b1,
                )[i - 16]);
            }
        } else if i < 52 {
            assert(all[i] == low[i - 32]);
        } else {
            assert(all[i] == ends[i - 52]);
            if i < 68 {
                assert(ends[i - 52] == air::differences(
                    16,
                    poseidon::two_full_rounds(k, k.ending@[0]@, k.ending@[1]@, after),
                    ending,
                )[i - 52]);
            } else {
                assert(ends[i - 52] == air::differences(8, last, outputs)[i - 68]);
            }
        }
    }
}

/// The row through the rows `lo` and `hi` of a set of columns, as polynomials.
pub open spec fn row_poly(columns: Seq<Vec<EF>>, lo: int, hi: int) -> Seq<Seq<EF>> {
    Seq::new(columns.len(), |c: int| rounds::line_poly(columns[c]@[lo], columns[c]@[hi]))
}

/// The row at `x` on the line through the rows `lo` and `hi` of a set of columns.
pub open spec fn line_row(columns: Seq<Vec<EF>>, lo: int, hi: int, x: EF) -> Seq<EF> {
    Seq::new(columns.len(), |c: int| rounds::line(columns[c]@[lo], columns[c]@[hi], x))
}

/// The combination of polynomials with the batching challenges.
pub open spec fn combined_poly(n: nat, alphas: Seq<EF>, offset: int, values: Seq<Seq<EF>>) -> Seq<EF> {
    poly::poly_sum(n, |i: int| poly::poly_times(alphas[offset + i], values[i]))
}

pub proof fn lemma_combined_poly(
    n: nat,
    alphas: Seq<EF>,
    offset: int,
    values: Seq<Seq<EF>>,
    len: nat,
    x: EF,
)
    requires
        n <= values.len(),
        short(values, len),
    ensures
        combined_poly(n, alphas, offset, values).len() <= len,
        poly::poly_at(combined_poly(n, alphas, offset, values), x) == sums::sum(
            n,
            |i: int| alphas[offset + i] * poly::poly_at(values[i], x),
        ),
{
    let f = |i: int| poly::poly_times(alphas[offset + i], values[i]);
    assert forall|i: int| 0 <= i < n implies (#[trigger] f(i)).len() <= len by {
        assert(values[i].len() <= len);
    }
    poly::lemma_poly_sum(n, f, len, x);
    let a = |i: int| poly::poly_at(f(i), x);
    let b = |i: int| alphas[offset + i] * poly::poly_at(values[i], x);
    assert forall|i: int| 0 <= i < n implies #[trigger] a(i) == b(i) by {
        poly::lemma_at_times(alphas[offset + i], values[i], x);
    }
    sums::lemma_sum_ext(n, a, b);
}

/// The row of polynomials at a point is the row on the line.
pub proof fn lemma_row_at(columns: Seq<Vec<EF>>, lo: int, hi: int, x: EF)
    ensures
        hom::mapped(evaluation(x), row_poly(columns, lo, hi)) == line_row(columns, lo, hi, x),
        short(row_poly(columns, lo, hi), 2),
{
    let a = hom::mapped(evaluation(x), row_poly(columns, lo, hi));
    let b = line_row(columns, lo, hi, x);
    assert forall|c: int| 0 <= c < columns.len() implies #[trigger] a[c] == b[c] by {
        rounds::lemma_line_poly(columns[c]@[lo], columns[c]@[hi], x);
    }
    assert(a =~= b);
}

/// The combined constraints along the line through two rows, as a polynomial.
pub open spec fn constraint_poly(k: PoseidonConstants, alphas: Seq<EF>, columns: Seq<Vec<EF>>, lo: int, hi: int) -> Seq<
    EF,
> {
    combined_poly(76, alphas, 0, air::constraints_spec(k, row_poly(columns, lo, hi)))
}

/// The combined constraints along a line are a polynomial of degree nine.
pub proof fn lemma_constraint_poly(
    k: PoseidonConstants,
    alphas: Seq<EF>,
    columns: Seq<Vec<EF>>,
    lo: int,
    hi: int,
    x: EF,
)
    requires
        columns.len() == 92,
    ensures
        constraint_poly(k, alphas, columns, lo, hi).len() <= 10,
        poly::poly_at(constraint_poly(k, alphas, columns, lo, hi), x) == air::combined_constraints(
            k,
            alphas,
            line_row(columns, lo, hi, x),
        ),
{
    let row = row_poly(columns, lo, hi);
    let values = air::constraints_spec(k, row);
    lemma_row_at(columns, lo, hi, x);
    law_constraint_degrees(k, row);
    lemma_combined_poly(76, alphas, 0, values, 10, x);
    lemma_evaluation_keeps_operations(x);
    hom::lemma_map_constraints(evaluation(x), k, row);
    let at = air::constraints_spec(k, line_row(columns, lo, hi, x));
    let a = |i: int| alphas[0 + i] * poly::poly_at(values[i], x);
    let b = |i: int| alphas[i] * at[i];
    assert forall|i: int| 0 <= i < 76 implies #[trigger] a(i) == b(i) by {
        assert(at[i] == evaluation(x)(values[i]));
    }
    sums::lemma_sum_ext(76, a, b);
    sums::lemma_sum_ext(76, b, |i: int| alphas[i] * air::constraints_spec(k, line_row(columns, lo, hi, x))[i]);
}

} // verus!
