//! The round of the hash constraints at the points where it is computed.
use super::air;
use super::air::LeanAirDedicatedHashAir;
use super::degree;
use super::hom;
use super::rounds;
use crate::arith;
use crate::ext;
use crate::ext::EF;
use crate::field;
use crate::field::F;
use crate::lagrange;
use crate::poly;
use crate::poseidon::{PoseidonConstants, DEDICATED_HASH_WIDTH};
use crate::sums;
use vstd::arithmetic::div_mod::*;
use vstd::arithmetic::mul::*;
use vstd::arithmetic::power2::*;
use vstd::prelude::*;

verus! {

/// The number of points at which the constraints of the partial rounds are computed in full.
pub const DEDICATED_HASH_LOW_FULL_EVALS: usize = 4;

/// The lower index of pair `j` when the digit `bit` is folded.
pub open spec fn pair_lo(bit: nat, j: int) -> int {
    (j / (pow2(bit) as int)) * (2 * pow2(bit)) + j % (pow2(bit) as int)
}

/// The higher index of pair `j` when the digit `bit` is folded.
pub open spec fn pair_hi(bit: nat, j: int) -> int {
    pair_lo(bit, j) + pow2(bit)
}

/// Both indices of a pair are in range.
pub proof fn lemma_pair_bound(bit: nat, n: nat, j: int)
    requires
        bit < n,
        0 <= j < pow2((n - 1) as nat),
    ensures
        0 <= pair_lo(bit, j),
        pair_hi(bit, j) < pow2(n),
{
    let s: int = pow2(bit) as int;
    lemma_pow2_pos(bit);
    let rest: nat = (n - 1 - bit) as nat;
    let q: int = pow2(rest) as int;
    lemma_pow2_adds(rest, bit);
    lemma_pow2_unfold(n);
    lemma_fundamental_div_mod(j, s);
    lemma_mod_bound(j, s);
    let d: int = j / s;
    let r: int = j % s;
    assert(0 <= d < q) by (nonlinear_arith)
        requires
            j == s * d + r,
            0 <= r < s,
            0 <= j < q * s,
    ;
    assert(d * (2 * s) + r + s < 2 * (q * s) && d * (2 * s) >= 0) by (nonlinear_arith)
        requires
            0 <= d < q,
            0 <= r < s,
    ;
}

/// The point of the `i`-th value: `0, 2, 3, ..., 9`.
pub open spec fn raw_node(i: int) -> int {
    if i == 0 {
        0
    } else {
        i + 1
    }
}

/// The combined constraints of the first `pairs` pairs at `x`, weighted.
pub open spec fn raw_at(
    k: PoseidonConstants,
    alphas: Seq<EF>,
    columns: Seq<Vec<EF>>,
    weights: Seq<EF>,
    bit: nat,
    pairs: nat,
    x: EF,
) -> EF {
    sums::sum(
        pairs,
        |j: int|
            air::combined_constraints(
                k,
                alphas,
                degree::line_row(columns, pair_lo(bit, j), pair_hi(bit, j), x),
            ) * weights[j],
    )
}

/// One step along a line.
proof fn lemma_line_step(a: EF, b: EF, z: int)
    requires
        a.canonical(),
    ensures
        rounds::line(a, b, poly::node(z + 1)) == rounds::line(a, b, poly::node(z)) + (b - a),
        rounds::line(a, b, poly::node(0)) == a,
{
    let d = b - a;
    let one = EF::one_spec();
    ext::lemma_from_base_ring(F::of(z), F::of(1));
    field::lemma_of_add(z, 1);
    assert(poly::node(z + 1) == poly::node(z) + one);
    ext::lemma_mul_distrib_left(poly::node(z), one, d);
    ext::lemma_add_canonical(b, a);
    ext::lemma_mul_one(d);
    ext::lemma_add_assoc(a, poly::node(z) * d, d);
    rounds::lemma_line_nodes(a, b);
}

/// A row of a set of columns and the differences to another.
fn read_pair(columns: &Vec<Vec<EF>>, lo: usize, hi: usize) -> (r: (Vec<EF>, Vec<EF>))
    requires
        forall|c: int|
            0 <= c < columns@.len() ==> (#[trigger] columns@[c])@.len() > lo && columns@[c]@.len() > hi,
    ensures
        r.0@ == degree::line_row(columns@, lo as int, hi as int, poly::node(0)),
        r.1@ == row_differences(columns@, lo as int, hi as int),
        forall|c: int| 0 <= c < columns@.len() ==> (#[trigger] columns@[c]@[lo as int]).canonical(),
{
    let mut point: Vec<EF> = Vec::new();
    let mut diff: Vec<EF> = Vec::new();
    let mut c: usize = 0;
    while c < columns.len()
        invariant
            c <= columns@.len(),
            forall|m: int|
                0 <= m < columns@.len() ==> (#[trigger] columns@[m])@.len() > lo && columns@[m]@.len() > hi,
            point@.len() == c,
            diff@.len() == c,
            forall|m: int|
                0 <= m < c ==> #[trigger] point@[m] == rounds::line(
                    columns@[m]@[lo as int],
                    columns@[m]@[hi as int],
                    poly::node(0),
                ),
            forall|m: int| 0 <= m < c ==> #[trigger] diff@[m] == columns@[m]@[hi as int] - columns@[m]@[lo as int],
            forall|m: int| 0 <= m < c ==> (#[trigger] columns@[m]@[lo as int]).canonical(),
        decreases columns@.len() - c,
    {
        let a = columns[c][lo];
        let b = columns[c][hi];
        a.assert_canonical();
        proof {
            lemma_line_step(a, b, 0);
        }
        point.push(a);
        diff.push(b.sub(a));
        c = c + 1;
    }
    assert(point@ =~= degree::line_row(columns@, lo as int, hi as int, poly::node(0)));
    assert(diff@ =~= row_differences(columns@, lo as int, hi as int));
    (point, diff)
}

/// The differences of two rows.
pub open spec fn row_differences(columns: Seq<Vec<EF>>, lo: int, hi: int) -> Seq<EF> {
    Seq::new(columns.len(), |c: int| columns[c]@[hi] - columns[c]@[lo])
}

/// Moves a point one step along the line.
fn step(
    point: &mut Vec<EF>,
    diff: &Vec<EF>,
    Ghost(columns): Ghost<Seq<Vec<EF>>>,
    Ghost(lo): Ghost<int>,
    Ghost(hi): Ghost<int>,
    Ghost(z): Ghost<int>,
)
    requires
        old(point)@ == degree::line_row(columns, lo, hi, poly::node(z)),
        diff@ == row_differences(columns, lo, hi),
        forall|c: int| 0 <= c < columns.len() ==> (#[trigger] columns[c]@[lo]).canonical(),
    ensures
        final(point)@ == degree::line_row(columns, lo, hi, poly::node(z + 1)),
{
    let n: usize = point.len();
    let mut c: usize = 0;
    while c < n
        invariant
            c <= n,
            n == columns.len(),
            point@.len() == n,
            diff@ == row_differences(columns, lo, hi),
            forall|m: int| 0 <= m < columns.len() ==> (#[trigger] columns[m]@[lo]).canonical(),
            forall|m: int|
                c <= m < n ==> #[trigger] point@[m] == rounds::line(columns[m]@[lo], columns[m]@[hi], poly::node(z)),
            forall|m: int|
                0 <= m < c ==> #[trigger] point@[m] == rounds::line(
                    columns[m]@[lo],
                    columns[m]@[hi],
                    poly::node(z + 1),
                ),
        decreases n - c,
    {
        proof {
            assert(columns[c as int]@[lo].canonical());
            lemma_line_step(columns[c as int]@[lo], columns[c as int]@[hi], z);
        }
        let moved = point[c].add(diff[c]);
        point.set(c, moved);
        c = c + 1;
    }
    assert(point@ =~= degree::line_row(columns, lo, hi, poly::node(z + 1)));
}

/// The combined constraints along a line at `0, 2, ..., 9`, each computed in full.
fn full_pair_evals(
    k: &PoseidonConstants,
    columns: &Vec<Vec<EF>>,
    alphas: &Vec<EF>,
    lo: usize,
    hi: usize,
) -> (r: Vec<EF>)
    requires
        columns@.len() == 92,
        forall|c: int|
            0 <= c < columns@.len() ==> (#[trigger] columns@[c])@.len() > lo && columns@[c]@.len() > hi,
        alphas@.len() >= 76,
    ensures
        r@.len() == 9,
        forall|i: int|
            0 <= i < 9 ==> #[trigger] r@[i] == air::combined_constraints(
                *k,
                alphas@,
                degree::line_row(columns@, lo as int, hi as int, poly::node(raw_node(i))),
            ),
{
    let air = LeanAirDedicatedHashAir;
    let (mut point, diff) = read_pair(columns, lo, hi);
    let mut out: Vec<EF> = Vec::new();
    out.push(air.eval_extension(k, &point, alphas));
    step(&mut point, &diff, Ghost(columns@), Ghost(lo as int), Ghost(hi as int), Ghost(0));
    let mut i: usize = 1;
    while i < 9
        invariant
            1 <= i <= 9,
            columns@.len() == 92,
            alphas@.len() >= 76,
            diff@ == row_differences(columns@, lo as int, hi as int),
            forall|c: int| 0 <= c < columns@.len() ==> (#[trigger] columns@[c]@[lo as int]).canonical(),
            point@ == degree::line_row(columns@, lo as int, hi as int, poly::node(i as int)),
            out@.len() == i,
            forall|m: int|
                0 <= m < i ==> #[trigger] out@[m] == air::combined_constraints(
                    *k,
                    alphas@,
                    degree::line_row(columns@, lo as int, hi as int, poly::node(raw_node(m))),
                ),
        decreases 9 - i,
    {
        step(&mut point, &diff, Ghost(columns@), Ghost(lo as int), Ghost(hi as int), Ghost(i as int));
        out.push(air.eval_extension(k, &point, alphas));
        i = i + 1;
    }
    out
}

/// The combination of values with the batching challenges from `offset` on.
pub open spec fn combination(alphas: Seq<EF>, offset: int, values: Seq<EF>) -> EF {
    sums::sum(values.len(), |i: int| alphas[offset + i] * values[i])
}

fn combine(alphas: &Vec<EF>, offset: usize, values: &Vec<EF>) -> (r: EF)
    requires
        offset + values@.len() <= alphas@.len(),
    ensures
        r == combination(alphas@, offset as int, values@),
{
    let ghost f = |i: int| alphas@[offset + i] * values@[i];
    let mut acc = EF::zero();
    let mut i: usize = 0;
    let n: usize = alphas.len();
    while i < values.len()
        invariant
            i <= values@.len(),
            n == alphas@.len(),
            offset + values@.len() <= n,
            f == (|i: int| alphas@[offset + i] * values@[i]),
            acc == sums::sum(i as nat, f),
        decreases values@.len() - i,
    {
        acc = acc.add(alphas[offset + i].mul(values[i]));
        i = i + 1;
    }
    acc
}

/// The combined constraints from those of the three groups of rounds.
proof fn lemma_three_groups(k: PoseidonConstants, alphas: Seq<EF>, row: Seq<EF>)
    requires
        row.len() == 92,
    ensures
        air::combined_constraints(k, alphas, row) == combination(alphas, 0, air::beginning_constraints(k, row))
            + combination(alphas, 32, air::partial_constraints(k, row)) + combination(
            alphas,
            52,
            air::ending_constraints(k, row, air::air_partial_state(k, row, 20)),
        ),
{
    let all = air::constraints_spec(k, row);
    let begins = air::beginning_constraints(k, row);
    let low = air::partial_constraints(k, row);
    let ends = air::ending_constraints(k, row, air::air_partial_state(k, row, 20));
    let f = |i: int| alphas[i] * air::constraints_spec(k, row)[i];
    sums::lemma_sum_split(52, 24, f);
    sums::lemma_sum_split(32, 20, f);
    sums::lemma_sum_ext(32, f, |i: int| alphas[0 + i] * begins[i]);
    sums::lemma_sum_ext(20, |i: int| f(32nat + i), |i: int| alphas[32 + i] * low[i]);
    sums::lemma_sum_ext(24, |i: int| f(52nat + i), |i: int| alphas[52 + i] * ends[i]);
}

/// The value of the combined constraints on a row, that of the part of the partial rounds, and the
/// state after the partial rounds.
fn eval_in_parts(k: &PoseidonConstants, point: &Vec<EF>, alphas: &Vec<EF>) -> (r: (EF, EF, [EF; 16]))
    requires
        point@.len() == 92,
        alphas@.len() >= 76,
    ensures
        r.0 == air::combined_constraints(*k, alphas@, point@),
        r.1 == combination(alphas@, 32, air::partial_constraints(*k, point@)),
        r.2@ == air::air_partial_state(*k, point@, 20),
{
    let row = air::read_row(point);
    let begins = air::eval_beginning(k, &row);
    let (low, state) = air::eval_partial(k, &row);
    let ends = air::eval_ending(k, &row, &state);
    proof {
        lemma_three_groups(*k, alphas@, point@);
    }
    let low_value = combine(alphas, 32, &low);
    (combine(alphas, 0, &begins).add(low_value).add(combine(alphas, 52, &ends)), low_value, state)
}

/// The part of the partial rounds along a line, as a polynomial of degree three.
spec fn low_poly(k: PoseidonConstants, alphas: Seq<EF>, columns: Seq<Vec<EF>>, lo: int, hi: int) -> Seq<EF> {
    degree::combined_poly(20, alphas, 32, air::partial_constraints(k, degree::row_poly(columns, lo, hi)))
}

proof fn lemma_low_poly(k: PoseidonConstants, alphas: Seq<EF>, columns: Seq<Vec<EF>>, lo: int, hi: int, x: EF)
    requires
        columns.len() == 92,
    ensures
        low_poly(k, alphas, columns, lo, hi).len() <= 4,
        poly::poly_at(low_poly(k, alphas, columns, lo, hi), x) == combination(
            alphas,
            32,
            air::partial_constraints(k, degree::line_row(columns, lo, hi, x)),
        ),
{
    let row = degree::row_poly(columns, lo, hi);
    let line = degree::line_row(columns, lo, hi, x);
    let values = air::partial_constraints(k, row);
    degree::lemma_row_at(columns, lo, hi, x);
    degree::law_constraint_degrees(k, row);
    degree::lemma_combined_poly(20, alphas, 32, values, 4, x);
    degree::lemma_evaluation_keeps_operations(x);
    hom::lemma_map_constraints(degree::evaluation(x), k, row);
    let at = air::partial_constraints(k, line);
    let a = |i: int| alphas[32 + i] * poly::poly_at(values[i], x);
    let b = |i: int| alphas[32 + i] * at[i];
    assert forall|i: int| 0 <= i < 20 implies #[trigger] a(i) == b(i) by {
        let all = air::constraints_spec(k, row);
        assert(all[32 + i] == values[i]);
        assert(air::constraints_spec(k, line)[32 + i] == at[i]);
        assert(hom::mapped(degree::evaluation(x), all)[32 + i] == degree::evaluation(x)(all[32 + i]));
    }
    sums::lemma_sum_ext(20, a, b);
}

/// The state after the partial rounds is a line: its value at `z` from those at zero and two.
proof fn lemma_state_line(
    k: PoseidonConstants,
    columns: Seq<Vec<EF>>,
    lo: int,
    hi: int,
    z: int,
    half_z: F,
    i: int,
)
    requires
        columns.len() == 92,
        half_z + half_z == F::of(z),
        0 <= i < 16,
    ensures
        ({
            let s0 = air::air_partial_state(k, degree::line_row(columns, lo, hi, poly::node(0)), 20)[i];
            let s2 = air::air_partial_state(k, degree::line_row(columns, lo, hi, poly::node(2)), 20)[i];
            air::air_partial_state(k, degree::line_row(columns, lo, hi, poly::node(z)), 20)[i] == s0 + (s2
                - s0).scale_spec(half_z)
        }),
{
    let row = degree::row_poly(columns, lo, hi);
    degree::lemma_row_at(columns, lo, hi, poly::node(0));
    degree::lemma_row_at(columns, lo, hi, poly::node(2));
    degree::lemma_row_at(columns, lo, hi, poly::node(z));
    degree::law_constraint_degrees(k, row);
    degree::lemma_evaluation_keeps_operations(poly::node(0));
    degree::lemma_evaluation_keeps_operations(poly::node(2));
    degree::lemma_evaluation_keeps_operations(poly::node(z));
    hom::lemma_map_air_state(degree::evaluation(poly::node(0)), k, row);
    hom::lemma_map_air_state(degree::evaluation(poly::node(2)), k, row);
    hom::lemma_map_air_state(degree::evaluation(poly::node(z)), k, row);
    let p = air::air_partial_state(k, row, 20)[i];
    assert(p.len() <= 2);
    lemma_short_line(p, z, half_z);
}

/// A polynomial of degree one from its values at zero and two.
proof fn lemma_short_line(p: Seq<EF>, z: int, half_z: F)
    requires
        p.len() <= 2,
        half_z + half_z == F::of(z),
    ensures
        poly::poly_at(p, poly::node(z)) == poly::poly_at(p, poly::node(0)) + (poly::poly_at(p, poly::node(2))
            - poly::poly_at(p, poly::node(0))).scale_spec(half_z),
{
    let zero = EF::zero_spec();
    let a = poly::coefficient(p, 0);
    let b = poly::coefficient(p, 1) + zero;
    ext::lemma_add_canonical(poly::coefficient(p, 1), zero);
    assert forall|x: EF| #[trigger] poly::poly_at(p, x) == a + x * b by {
        poly::lemma_at_tail(p, x);
        poly::lemma_at_tail(poly::tail(p), x);
        assert(poly::tail(poly::tail(p)).len() == 0);
        ext::lemma_mul_zero(x);
    }
    let p0 = poly::poly_at(p, poly::node(0));
    let p2 = poly::poly_at(p, poly::node(2));
    poly::lemma_at_canonical(p, poly::node(0));
    poly::lemma_at_canonical(p, poly::node(2));
    // p2 - p0 == 2 b
    ext::lemma_mul_zero(b);
    let t = poly::node(2) * b;
    ext::lemma_mul_canonical(poly::node(2), b);
    ext::lemma_constants_canonical();
    ext::lemma_sub_exchange(a, t, a, zero);
    ext::lemma_sub_self(a);
    ext::lemma_sub_add_cancel(t, zero);
    ext::lemma_add_canonical(t, zero);
    ext::lemma_add_zero(t - zero);
    ext::lemma_add_zero(t);
    ext::lemma_add_comm(zero, t - zero);
    assert(p2 - p0 == t - zero);
    assert(t - zero == t);
    // (2 b) z/2 == z b
    ext::lemma_scale_is_mul(t, half_z);
    ext::lemma_mul_comm(t, EF::from_base_spec(half_z));
    ext::lemma_mul_assoc(EF::from_base_spec(half_z), poly::node(2), b);
    ext::lemma_from_base_ring(half_z, F::of(2));
    lemma_half_times_two(half_z);
    assert(t.scale_spec(half_z) == poly::node(z) * b);
    // p0 == a + 0
    ext::lemma_add_assoc(a, zero, poly::node(z) * b);
    ext::lemma_mul_canonical(poly::node(z), b);
    ext::lemma_add_zero(poly::node(z) * b);
    ext::lemma_add_comm(zero, poly::node(z) * b);
}

proof fn lemma_half_times_two(h: F)
    ensures
        h * F::of(2) == h + h,
{
    field::lemma_of_val(2);
    assert(h.val() * F::of(2).val() == h.val() + h.val());
}

/// The points `5, ..., 9` where the part of the partial rounds is interpolated, and their halves.
fn skipped_points() -> (r: (Vec<F>, Vec<F>))
    ensures
        r.0@.len() == 5,
        r.1@.len() == 5,
        forall|t: int| 0 <= t < 5 ==> #[trigger] r.0@[t] == F::of(5 + t),
        forall|t: int| 0 <= t < 5 ==> (#[trigger] r.1@[t]) + r.1@[t] == F::of(5 + t),
{
    let two = F::new(2);
    proof {
        field::lemma_of_val(2);
        field::lemma_of_val(0);
    }
    let half = two.inverse();
    let mut points: Vec<F> = Vec::new();
    let mut halves: Vec<F> = Vec::new();
    let mut t: usize = 0;
    while t < 5
        invariant
            t <= 5,
            two == F::of(2),
            two * half == F::one_spec(),
            points@.len() == t,
            halves@.len() == t,
            forall|m: int| 0 <= m < t ==> #[trigger] points@[m] == F::of(5 + m),
            forall|m: int| 0 <= m < t ==> (#[trigger] halves@[m]) + halves@[m] == F::of(5 + m),
        decreases 5 - t,
    {
        let z = F::from_usize(5 + t);
        let h = z.mul(half);
        proof {
            lemma_half_times_two(h);
            field::lemma_mul_assoc(z, half, two);
            field::lemma_mul_comm(half, two);
            field::lemma_of_val(5 + t);
            field::lemma_mul_one(z);
        }
        points.push(z);
        halves.push(h);
        t = t + 1;
    }
    (points, halves)
}

/// The points `0, 2, 3, 4` where the part of the partial rounds is computed.
fn low_points() -> (r: Vec<F>)
    ensures
        r@.len() == 4,
        forall|i: int| 0 <= i < 4 ==> #[trigger] r@[i] == F::of(raw_node(i)),
        poly::distinct(r@),
{
    let mut out: Vec<F> = Vec::new();
    out.push(F::zero());
    out.push(F::new(2));
    out.push(F::new(3));
    out.push(F::new(4));
    proof {
        poly::lemma_consecutive_distinct(5);
        let c = poly::consecutive(5);
        assert forall|i: int| 0 <= i < 4 implies (#[trigger] out@[i]).canonical() && out@[i] == c[raw_node(i)] by {
            assert(c[raw_node(i)].canonical());
        }
        assert forall|i: int, j: int| 0 <= i < j < 4 implies #[trigger] out@[i] != #[trigger] out@[j] by {
            assert(c[raw_node(i)] != c[raw_node(j)]);
        }
    }
    out
}

/// The combined constraints along a line at `0, 2, ..., 9`: in full at the first four points; at the
/// others the part of the partial rounds is interpolated, and the state after them is taken from the
/// line through its values at zero and two.
fn split_pair_evals(
    k: &PoseidonConstants,
    columns: &Vec<Vec<EF>>,
    alphas: &Vec<EF>,
    lo: usize,
    hi: usize,
    nodes: &Vec<F>,
    halves: &Vec<F>,
    coeffs: &Vec<Vec<F>>,
) -> (r: Vec<EF>)
    requires
        columns@.len() == 92,
        forall|c: int|
            0 <= c < columns@.len() ==> (#[trigger] columns@[c])@.len() > lo && columns@[c]@.len() > hi,
        alphas@.len() >= 76,
        nodes@.len() == 4,
        forall|i: int| 0 <= i < 4 ==> #[trigger] nodes@[i] == F::of(raw_node(i)),
        halves@.len() == 5,
        forall|t: int| 0 <= t < 5 ==> (#[trigger] halves@[t]) + halves@[t] == F::of(5 + t),
        coeffs@.len() == 5,
        forall|t: int| 0 <= t < 5 ==> (#[trigger] coeffs@[t])@.len() == 4,
        forall|t: int, c: Seq<EF>|
            0 <= t < 5 && c.len() <= 4 ==> #[trigger] lagrange::weighted(
                4,
                lagrange::at_nodes(c, nodes@),
                coeffs@[t]@,
            ) == poly::poly_at(c, poly::node(5 + t)),
    ensures
        r@.len() == 9,
        forall|i: int|
            0 <= i < 9 ==> #[trigger] r@[i] == air::combined_constraints(
                *k,
                alphas@,
                degree::line_row(columns@, lo as int, hi as int, poly::node(raw_node(i))),
            ),
{
    let ghost l: int = lo as int;
    let ghost h: int = hi as int;
    let (mut point, diff) = read_pair(columns, lo, hi);
    let mut out: Vec<EF> = Vec::new();
    let mut low: Vec<EF> = Vec::new();
    let (total, low_value, state_0) = eval_in_parts(k, &point, alphas);
    out.push(total);
    low.push(low_value);
    step(&mut point, &diff, Ghost(columns@), Ghost(l), Ghost(h), Ghost(0));
    step(&mut point, &diff, Ghost(columns@), Ghost(l), Ghost(h), Ghost(1));
    let (total, low_value, state_2) = eval_in_parts(k, &point, alphas);
    out.push(total);
    low.push(low_value);
    let mut i: usize = 2;
    while i < DEDICATED_HASH_LOW_FULL_EVALS
        invariant
            2 <= i <= 4,
            columns@.len() == 92,
            alphas@.len() >= 76,
            l == lo,
            h == hi,
            diff@ == row_differences(columns@, l, h),
            forall|c: int| 0 <= c < columns@.len() ==> (#[trigger] columns@[c]@[l]).canonical(),
            point@ == degree::line_row(columns@, l, h, poly::node(i as int)),
            out@.len() == i,
            low@.len() == i,
            forall|m: int|
                0 <= m < i ==> #[trigger] out@[m] == air::combined_constraints(
                    *k,
                    alphas@,
                    degree::line_row(columns@, l, h, poly::node(raw_node(m))),
                ),
            forall|m: int|
                0 <= m < i ==> #[trigger] low@[m] == combination(
                    alphas@,
                    32,
                    air::partial_constraints(*k, degree::line_row(columns@, l, h, poly::node(raw_node(m)))),
                ),
        decreases 4 - i,
    {
        step(&mut point, &diff, Ghost(columns@), Ghost(l), Ghost(h), Ghost(i as int));
        let (total, low_value, _) = eval_in_parts(k, &point, alphas);
        out.push(total);
        low.push(low_value);
        i = i + 1;
    }
    let ghost lp = low_poly(*k, alphas@, columns@, l, h);
    proof {
        lemma_low_poly(*k, alphas@, columns@, l, h, poly::node(0));
    }
    let mut t: usize = 0;
    while t < 5
        invariant
            t <= 5,
            columns@.len() == 92,
            alphas@.len() >= 76,
            l == lo,
            h == hi,
            diff@ == row_differences(columns@, l, h),
            forall|c: int| 0 <= c < columns@.len() ==> (#[trigger] columns@[c]@[l]).canonical(),
            point@ == degree::line_row(columns@, l, h, poly::node(4 + t)),
            nodes@.len() == 4,
            forall|i: int| 0 <= i < 4 ==> #[trigger] nodes@[i] == F::of(raw_node(i)),
            halves@.len() == 5,
            forall|t: int| 0 <= t < 5 ==> (#[trigger] halves@[t]) + halves@[t] == F::of(5 + t),
            coeffs@.len() == 5,
            forall|t: int| 0 <= t < 5 ==> (#[trigger] coeffs@[t])@.len() == 4,
            forall|t: int, c: Seq<EF>|
                0 <= t < 5 && c.len() <= 4 ==> #[trigger] lagrange::weighted(
                    4,
                    lagrange::at_nodes(c, nodes@),
                    coeffs@[t]@,
                ) == poly::poly_at(c, poly::node(5 + t)),
            lp == low_poly(*k, alphas@, columns@, l, h),
            lp.len() <= 4,
            state_0@ == air::air_partial_state(*k, degree::line_row(columns@, l, h, poly::node(0)), 20),
            state_2@ == air::air_partial_state(*k, degree::line_row(columns@, l, h, poly::node(2)), 20),
            low@.len() == 4,
            forall|m: int|
                0 <= m < 4 ==> #[trigger] low@[m] == combination(
                    alphas@,
                    32,
                    air::partial_constraints(*k, degree::line_row(columns@, l, h, poly::node(raw_node(m)))),
                ),
            out@.len() == 4 + t,
            forall|m: int|
                0 <= m < 4 + t ==> #[trigger] out@[m] == air::combined_constraints(
                    *k,
                    alphas@,
                    degree::line_row(columns@, l, h, poly::node(raw_node(m))),
                ),
        decreases 5 - t,
    {
        step(&mut point, &diff, Ghost(columns@), Ghost(l), Ghost(h), Ghost(4 + t));
        // The state after the partial rounds.
        let half_z = halves[t];
        let mut state: [EF; 16] = state_0;
        let ghost target = air::air_partial_state(*k, point@, 20);
        let mut i: usize = 0;
        while i < DEDICATED_HASH_WIDTH
            invariant
                i <= 16,
                columns@.len() == 92,
                half_z + half_z == F::of(5 + t),
                point@ == degree::line_row(columns@, l, h, poly::node(5 + t)),
                target == air::air_partial_state(*k, point@, 20),
                state_0@ == air::air_partial_state(*k, degree::line_row(columns@, l, h, poly::node(0)), 20),
                state_2@ == air::air_partial_state(*k, degree::line_row(columns@, l, h, poly::node(2)), 20),
                forall|m: int| 0 <= m < i ==> #[trigger] state@[m] == target[m],
            decreases 16 - i,
        {
            proof {
                lemma_state_line(*k, columns@, l, h, 5 + t, half_z, i as int);
            }
            state[i] = state_0[i].add(state_2[i].sub(state_0[i]).scale(half_z));
            i = i + 1;
        }
        proof {
            lemma_state_len(*k, columns@, l, h, poly::node(5 + t));
            assert(state@ =~= target);
        }
        let row = air::read_row(&point);
        let begins = air::eval_beginning(k, &row);
        let ends = air::eval_ending(k, &row, &state);
        let interpolated = interpolate_low(&low, &coeffs[t]);
        proof {
            lemma_three_groups(*k, alphas@, point@);
            lemma_low_poly(*k, alphas@, columns@, l, h, poly::node(5 + t));
            let values = lagrange::at_nodes(lp, nodes@);
            let stored = |i: int| low@[i];
            assert forall|i: int| 0 <= i < 4 implies #[trigger] stored(i) == values(i) by {
                lemma_low_poly(*k, alphas@, columns@, l, h, poly::node(raw_node(i)));
                assert(nodes@[i] == F::of(raw_node(i)));
            }
            let a = |i: int| stored(i).scale_spec(coeffs@[t as int]@[i]);
            let b = |i: int| values(i).scale_spec(coeffs@[t as int]@[i]);
            assert forall|i: int| 0 <= i < 4 implies #[trigger] a(i) == b(i) by {
                assert(stored(i) == values(i));
            }
            sums::lemma_sum_ext(4, a, b);
            sums::lemma_sum_ext(4, |i: int| low@[i].scale_spec(coeffs@[t as int]@[i]), a);
            assert(lagrange::weighted(4, values, coeffs@[t as int]@) == poly::poly_at(lp, poly::node(5 + t)));
            assert(interpolated == poly::poly_at(lp, poly::node(5 + t)));
        }
        let value = combine(alphas, 0, &begins).add(interpolated).add(combine(alphas, 52, &ends));
        assert(value == air::combined_constraints(*k, alphas@, point@));
        assert(raw_node(4 + t) == 5 + t);
        out.push(value);
        t = t + 1;
    }
    out
}

proof fn lemma_state_len(k: PoseidonConstants, columns: Seq<Vec<EF>>, lo: int, hi: int, x: EF)
    requires
        columns.len() == 92,
    ensures
        air::air_partial_state(k, degree::line_row(columns, lo, hi, x), 20).len() == 16,
{
}

fn interpolate_low(low: &Vec<EF>, coeffs: &Vec<F>) -> (r: EF)
    requires
        low@.len() == 4,
        coeffs@.len() == 4,
    ensures
        r == sums::sum(4, |i: int| low@[i].scale_spec(coeffs@[i])),
{
    let ghost f = |i: int| low@[i].scale_spec(coeffs@[i]);
    let mut acc = EF::zero();
    let mut i: usize = 0;
    while i < 4
        invariant
            i <= 4,
            low@.len() == 4,
            coeffs@.len() == 4,
            f == (|i: int| low@[i].scale_spec(coeffs@[i])),
            acc == sums::sum(i as nat, f),
        decreases 4 - i,
    {
        acc = acc.add(low[i].scale(coeffs[i]));
        i = i + 1;
    }
    acc
}

/// Adds the weighted values of a pair.
fn accumulate(
    acc: &mut Vec<EF>,
    evals: &Vec<EF>,
    weight: EF,
    Ghost(f): Ghost<spec_fn(int, int) -> EF>,
    Ghost(j): Ghost<int>,
)
    requires
        old(acc)@.len() == 9,
        evals@.len() == 9,
        j >= 0,
        forall|i: int| 0 <= i < 9 ==> #[trigger] old(acc)@[i] == sums::sum(j as nat, |m: int| f(i, m)),
        forall|i: int| 0 <= i < 9 ==> #[trigger] f(i, j) == evals@[i] * weight,
    ensures
        final(acc)@.len() == 9,
        forall|i: int| 0 <= i < 9 ==> #[trigger] final(acc)@[i] == sums::sum((j + 1) as nat, |m: int| f(i, m)),
{
    let ghost before = acc@;
    let mut i: usize = 0;
    while i < 9
        invariant
            i <= 9,
            acc@.len() == 9,
            evals@.len() == 9,
            j >= 0,
            forall|m: int| i <= m < 9 ==> #[trigger] acc@[m] == sums::sum(j as nat, |n: int| f(m, n)),
            forall|m: int| 0 <= m < 9 ==> #[trigger] f(m, j) == evals@[m] * weight,
            forall|m: int| 0 <= m < i ==> #[trigger] acc@[m] == sums::sum((j + 1) as nat, |n: int| f(m, n)),
        decreases 9 - i,
    {
        proof {
            let g = |n: int| f(i as int, n);
            assert(sums::sum((j + 1) as nat, g) == sums::sum(j as nat, g) + g(j));
            assert(f(i as int, j) == evals@[i as int] * weight);
        }
        let value = acc[i].add(evals[i].mul(weight));
        acc.set(i, value);
        i = i + 1;
    }
}

/// The term of pair `j` at the `i`-th point.
spec fn pair_term(
    k: PoseidonConstants,
    alphas: Seq<EF>,
    columns: Seq<Vec<EF>>,
    weights: Seq<EF>,
    bit: nat,
) -> spec_fn(int, int) -> EF {
    |i: int, j: int|
        air::combined_constraints(
            k,
            alphas,
            degree::line_row(columns, pair_lo(bit, j), pair_hi(bit, j), poly::node(raw_node(i))),
        ) * weights[j]
}

/// The indices of pair `j`.
pub(crate) fn pair_indices(stride: usize, j: usize, Ghost(bit): Ghost<nat>, Ghost(n): Ghost<nat>) -> (r: (usize, usize))
    requires
        stride == pow2(bit),
        bit < n,
        pow2(n) <= usize::MAX,
        j < pow2((n - 1) as nat),
    ensures
        r.0 == pair_lo(bit, j as int),
        r.1 == pair_hi(bit, j as int),
        r.1 < pow2(n),
{
    proof {
        lemma_pow2_pos(bit);
        lemma_pair_bound(bit, n, j as int);
        lemma_mul_inequality(1, 2, stride as int);
    }
    let q: usize = j / stride;
    let r: usize = j % stride;
    proof {
        assert(q * (2 * stride) <= pair_lo(bit, j as int));
        assert(2 * stride <= usize::MAX) by {
            crate::arith::lemma_pow2_monotone((bit + 1) as nat, n);
            lemma_pow2_unfold(bit + 1);
        }
    }
    let lo: usize = q * (2 * stride) + r;
    (lo, lo + stride)
}

/// Nine zeros.
fn nine_zeros() -> (r: Vec<EF>)
    ensures
        r@.len() == 9,
        forall|i: int| 0 <= i < 9 ==> #[trigger] r@[i] == EF::zero_spec(),
{
    let mut out: Vec<EF> = Vec::new();
    let mut i: usize = 0;
    while i < 9
        invariant
            i <= 9,
            out@.len() == i,
            forall|m: int| 0 <= m < i ==> #[trigger] out@[m] == EF::zero_spec(),
        decreases 9 - i,
    {
        out.push(EF::zero());
        i = i + 1;
    }
    out
}

/// The round at `0, 2, ..., 9`, with every constraint computed at every point.
pub fn dedicated_hash_compute_raw_poly_full(
    k: &PoseidonConstants,
    columns: &Vec<Vec<EF>>,
    weights: &Vec<EF>,
    alphas: &Vec<EF>,
    n_vars: usize,
    fold_bit: usize,
    active_count_pairs: usize,
) -> (r: Vec<EF>)
    requires
        columns@.len() == 92,
        fold_bit < n_vars,
        pow2(n_vars as nat) <= usize::MAX,
        forall|c: int| 0 <= c < columns@.len() ==> (#[trigger] columns@[c])@.len() == pow2(n_vars as nat),
        active_count_pairs <= pow2((n_vars - 1) as nat),
        weights@.len() >= active_count_pairs,
        alphas@.len() >= 76,
    ensures
        r@.len() == 9,
        forall|i: int|
            0 <= i < 9 ==> #[trigger] r@[i] == raw_at(
                *k,
                alphas@,
                columns@,
                weights@,
                fold_bit as nat,
                active_count_pairs as nat,
                poly::node(raw_node(i)),
            ),
{
    let ghost f = pair_term(*k, alphas@, columns@, weights@, fold_bit as nat);
    proof {
        crate::arith::lemma_pow2_monotone(fold_bit as nat, n_vars as nat);
    }
    let stride: usize = arith::power_of_two(fold_bit);
    let mut acc = nine_zeros();
    let mut j: usize = 0;
    while j < active_count_pairs
        invariant
            j <= active_count_pairs,
            columns@.len() == 92,
            fold_bit < n_vars,
            pow2(n_vars as nat) <= usize::MAX,
            forall|c: int| 0 <= c < columns@.len() ==> (#[trigger] columns@[c])@.len() == pow2(n_vars as nat),
            active_count_pairs <= pow2((n_vars - 1) as nat),
            weights@.len() >= active_count_pairs,
            alphas@.len() >= 76,
            stride == pow2(fold_bit as nat),
            f == pair_term(*k, alphas@, columns@, weights@, fold_bit as nat),
            acc@.len() == 9,
            forall|i: int| 0 <= i < 9 ==> #[trigger] acc@[i] == sums::sum(j as nat, |m: int| f(i, m)),
        decreases active_count_pairs - j,
    {
        let (lo, hi) = pair_indices(stride, j, Ghost(fold_bit as nat), Ghost(n_vars as nat));
        let evals = full_pair_evals(k, columns, alphas, lo, hi);
        accumulate(&mut acc, &evals, weights[j], Ghost(f), Ghost(j as int));
        j = j + 1;
    }
    proof {
        lemma_raw_terms(*k, alphas@, columns@, weights@, fold_bit as nat, active_count_pairs as nat);
    }
    acc
}

proof fn lemma_raw_terms(
    k: PoseidonConstants,
    alphas: Seq<EF>,
    columns: Seq<Vec<EF>>,
    weights: Seq<EF>,
    bit: nat,
    pairs: nat,
)
    ensures
        ({
            let f = pair_term(k, alphas, columns, weights, bit);
            forall|i: int|
                sums::sum(pairs, |m: int| f(i, m)) == #[trigger] raw_at(
                    k,
                    alphas,
                    columns,
                    weights,
                    bit,
                    pairs,
                    poly::node(raw_node(i)),
                )
        }),
{
    let f = pair_term(k, alphas, columns, weights, bit);
    assert forall|i: int|
        sums::sum(pairs, |m: int| f(i, m)) == #[trigger] raw_at(
            k,
            alphas,
            columns,
            weights,
            bit,
            pairs,
            poly::node(raw_node(i)),
        ) by {
        sums::lemma_sum_ext(
            pairs,
            |m: int| f(i, m),
            |j: int|
                air::combined_constraints(
                    k,
                    alphas,
                    degree::line_row(columns, pair_lo(bit, j), pair_hi(bit, j), poly::node(raw_node(i))),
                ) * weights[j],
        );
    }
}

/// The round at `0, 2, ..., 9`, with the part of the partial rounds computed at four points only.
pub fn dedicated_hash_compute_raw_poly_degree_split(
    k: &PoseidonConstants,
    columns: &Vec<Vec<EF>>,
    weights: &Vec<EF>,
    alphas: &Vec<EF>,
    n_vars: usize,
    fold_bit: usize,
    active_count_pairs: usize,
) -> (r: Vec<EF>)
    requires
        columns@.len() == 92,
        fold_bit < n_vars,
        pow2(n_vars as nat) <= usize::MAX,
        forall|c: int| 0 <= c < columns@.len() ==> (#[trigger] columns@[c])@.len() == pow2(n_vars as nat),
        active_count_pairs <= pow2((n_vars - 1) as nat),
        weights@.len() >= active_count_pairs,
        alphas@.len() >= 76,
    ensures
        r@.len() == 9,
        forall|i: int|
            0 <= i < 9 ==> #[trigger] r@[i] == raw_at(
                *k,
                alphas@,
                columns@,
                weights@,
                fold_bit as nat,
                active_count_pairs as nat,
                poly::node(raw_node(i)),
            ),
{
    let ghost f = pair_term(*k, alphas@, columns@, weights@, fold_bit as nat);
    proof {
        crate::arith::lemma_pow2_monotone(fold_bit as nat, n_vars as nat);
    }
    let stride: usize = arith::power_of_two(fold_bit);
    let nodes = low_points();
    let (points, halves) = skipped_points();
    let coeffs = lagrange::lagrange_basis_evals(&nodes, &points);
    proof {
        assert forall|t: int, c: Seq<EF>| 0 <= t < 5 && c.len() <= 4 implies #[trigger] lagrange::weighted(
            4,
            lagrange::at_nodes(c, nodes@),
            coeffs@[t]@,
        ) == poly::poly_at(c, poly::node(5 + t)) by {
            assert(points@[t] == F::of(5 + t));
        }
    }
    let mut acc = nine_zeros();
    let mut j: usize = 0;
    while j < active_count_pairs
        invariant
            j <= active_count_pairs,
            columns@.len() == 92,
            fold_bit < n_vars,
            pow2(n_vars as nat) <= usize::MAX,
            forall|c: int| 0 <= c < columns@.len() ==> (#[trigger] columns@[c])@.len() == pow2(n_vars as nat),
            active_count_pairs <= pow2((n_vars - 1) as nat),
            weights@.len() >= active_count_pairs,
            alphas@.len() >= 76,
            stride == pow2(fold_bit as nat),
            nodes@.len() == 4,
            forall|i: int| 0 <= i < 4 ==> #[trigger] nodes@[i] == F::of(raw_node(i)),
            halves@.len() == 5,
            forall|t: int| 0 <= t < 5 ==> (#[trigger] halves@[t]) + halves@[t] == F::of(5 + t),
            coeffs@.len() == 5,
            forall|t: int| 0 <= t < 5 ==> (#[trigger] coeffs@[t])@.len() == 4,
            forall|t: int, c: Seq<EF>|
                0 <= t < 5 && c.len() <= 4 ==> #[trigger] lagrange::weighted(
                    4,
                    lagrange::at_nodes(c, nodes@),
                    coeffs@[t]@,
                ) == poly::poly_at(c, poly::node(5 + t)),
            f == pair_term(*k, alphas@, columns@, weights@, fold_bit as nat),
            acc@.len() == 9,
            forall|i: int| 0 <= i < 9 ==> #[trigger] acc@[i] == sums::sum(j as nat, |m: int| f(i, m)),
        decreases active_count_pairs - j,
    {
        let (lo, hi) = pair_indices(stride, j, Ghost(fold_bit as nat), Ghost(n_vars as nat));
        let evals = split_pair_evals(k, columns, alphas, lo, hi, &nodes, &halves, &coeffs);
        accumulate(&mut acc, &evals, weights[j], Ghost(f), Ghost(j as int));
        j = j + 1;
    }
    proof {
        lemma_raw_terms(*k, alphas@, columns@, weights@, fold_bit as nat, active_count_pairs as nat);
    }
    acc
}

} // verus!
