//! The sumcheck sessions of the linear claims.
use super::rounds;
use super::sparse;
use super::sparse::SparseCoeff;
use crate::ext;
use crate::ext::EF;
use crate::field::F;
use crate::poly;
use crate::poly::DensePolynomial;
use crate::sums;
use vstd::arithmetic::power2::*;
use vstd::prelude::*;

verus! {

/// The degree of a round of a linear claim, without the equality polynomial.
pub const VIRTUAL_LINEAR_BUS_BARE_DEGREE: usize = 2;

/// The values of a set of columns.
pub open spec fn column_values(columns: Seq<Vec<EF>>) -> spec_fn(int, int) -> EF {
    |s: int, i: int| columns[s]@[i]
}

/// The coefficients of a set of sparse columns.
pub open spec fn sparse_values(columns: Seq<Vec<SparseCoeff>>) -> spec_fn(int, int) -> EF {
    |s: int, i: int| sparse::value_at(columns[s]@, i)
}

/// Columns of the table, in the extension.
pub open spec fn lifted_columns(columns: Seq<Vec<F>>, indexes: Seq<usize>, lifted: Seq<Vec<EF>>) -> bool {
    &&& lifted.len() == indexes.len()
    &&& forall|s: int|
        0 <= s < indexes.len() ==> (#[trigger] lifted[s])@.len() == columns[indexes[s] as int]@.len()
    &&& forall|s: int, i: int|
        0 <= s < indexes.len() && 0 <= i < lifted[s]@.len() ==> #[trigger] lifted[s]@[i] == EF::from_base_spec(
            columns[indexes[s] as int]@[i],
        )
}

fn lift_columns(columns: &Vec<Vec<F>>, indexes: &Vec<usize>) -> (r: Vec<Vec<EF>>)
    requires
        forall|s: int| 0 <= s < indexes@.len() ==> (#[trigger] indexes@[s]) < columns@.len(),
    ensures
        lifted_columns(columns@, indexes@, r@),
{
    let mut out: Vec<Vec<EF>> = Vec::new();
    let mut s: usize = 0;
    while s < indexes.len()
        invariant
            s <= indexes@.len(),
            forall|t: int| 0 <= t < indexes@.len() ==> (#[trigger] indexes@[t]) < columns@.len(),
            out@.len() == s,
            forall|t: int| 0 <= t < s ==> (#[trigger] out@[t])@.len() == columns@[indexes@[t] as int]@.len(),
            forall|t: int, i: int|
                0 <= t < s && 0 <= i < out@[t]@.len() ==> #[trigger] out@[t]@[i] == EF::from_base_spec(
                    columns@[indexes@[t] as int]@[i],
                ),
        decreases indexes@.len() - s,
    {
        let column = &columns[indexes[s]];
        let mut lifted: Vec<EF> = Vec::new();
        let mut i: usize = 0;
        while i < column.len()
            invariant
                i <= column@.len(),
                lifted@.len() == i,
                forall|m: int| 0 <= m < i ==> #[trigger] lifted@[m] == EF::from_base_spec(column@[m]),
            decreases column@.len() - i,
        {
            lifted.push(EF::from_base(column[i]));
            i = i + 1;
        }
        out.push(lifted);
        s = s + 1;
    }
    out
}

/// The weight of what is left of a claim: one half for each variable that is left, times the factors
/// of the variables that are set.
pub open spec fn claim_weight(n_vars: nat, missing_mul_factor: EF) -> EF {
    rounds::half().pow(n_vars) * missing_mul_factor
}

/// The session of a claim with dense coefficients.
#[derive(Debug)]
pub struct DenseLinearBusSession {
    pub values: Vec<Vec<EF>>,
    pub coefficients: Vec<Vec<EF>>,
    pub current_n_vars: usize,
    pub initial_n_vars: usize,
    pub sum: EF,
    pub missing_mul_factor: EF,
}

impl DenseLinearBusSession {
    /// Whether there are as many values as the variables that are left ask for.
    pub open spec fn wf(self) -> bool {
        &&& self.values@.len() == self.coefficients@.len()
        &&& forall|s: int| 0 <= s < self.values@.len() ==> (#[trigger] self.values@[s])@.len() == pow2(self.current_n_vars as nat)
        &&& forall|s: int|
            0 <= s < self.coefficients@.len() ==> (#[trigger] self.coefficients@[s])@.len() == pow2(
                self.current_n_vars as nat,
            )
    }

    /// What the round claims at `x`, without the equality polynomial.
    pub open spec fn round_at(self, x: EF) -> EF {
        claim_weight((self.current_n_vars - 1) as nat, self.missing_mul_factor) * rounds::product_round(
            self.values@.len(),
            pow2((self.current_n_vars - 1) as nat),
            column_values(self.values@),
            column_values(self.coefficients@),
            x,
        )
    }

    /// The weighted sum of all products of values and coefficients.
    pub open spec fn claim(self) -> EF {
        claim_weight(self.current_n_vars as nat, self.missing_mul_factor) * rounds::product_sum(
            self.values@.len(),
            pow2(self.current_n_vars as nat),
            column_values(self.values@),
            column_values(self.coefficients@),
        )
    }

    /// Starts the session of the columns `column_indexes` of the table.
    pub fn new(
        committed_columns: &Vec<Vec<F>>,
        column_indexes: Vec<usize>,
        coefficients: Vec<Vec<EF>>,
        log_rows: usize,
    ) -> (r: DenseLinearBusSession)
        requires
            column_indexes@.len() == coefficients@.len(),
            forall|s: int| 0 <= s < column_indexes@.len() ==> (#[trigger] column_indexes@[s]) < committed_columns@.len(),
            forall|c: int|
                0 <= c < committed_columns@.len() ==> (#[trigger] committed_columns@[c])@.len() == pow2(log_rows as nat),
            forall|s: int| 0 <= s < coefficients@.len() ==> (#[trigger] coefficients@[s])@.len() == pow2(log_rows as nat),
        ensures
            r.wf(),
            lifted_columns(committed_columns@, column_indexes@, r.values@),
            r.coefficients@ == coefficients@,
            r.current_n_vars == log_rows,
            r.initial_n_vars == log_rows,
            r.sum == EF::zero_spec(),
            r.missing_mul_factor == EF::one_spec(),
    {
        let values = lift_columns(committed_columns, &column_indexes);
        DenseLinearBusSession {
            values,
            coefficients,
            current_n_vars: log_rows,
            initial_n_vars: log_rows,
            sum: EF::zero(),
            missing_mul_factor: EF::one(),
        }
    }

    /// The name of the session.
    pub fn label(&self) -> (r: &'static str)
        ensures
            r@ == "dense cell-chain"@,
    {
        "dense cell-chain"
    }

    /// The number of variables at the start.
    pub fn initial_n_vars(&self) -> (r: usize)
        ensures
            r == self.initial_n_vars,
    {
        self.initial_n_vars
    }

    /// The claimed sum.
    pub fn sum(&self) -> (r: EF)
        ensures
            r == self.sum,
    {
        self.sum
    }

    /// The degree of a round, without the equality polynomial.
    pub fn bare_degree(&self) -> (r: usize)
        ensures
            r == 2,
    {
        VIRTUAL_LINEAR_BUS_BARE_DEGREE
    }

    /// The challenge of the equality polynomial.
    pub fn eq_alpha(&self) -> (r: EF)
        ensures
            r == rounds::half(),
    {
        rounds::virtual_linear_eq_alpha()
    }

    /// The polynomial of the round. Its values at zero and one, weighted by the equality polynomial,
    /// add up to the claim.
    pub fn compute_bare_round_poly(&self) -> (r: DensePolynomial)
        requires
            self.wf(),
            self.values@.len() > 0,
            self.current_n_vars > 0,
        ensures
            r.coeffs@.len() == 3,
            forall|x: EF| #[trigger] poly::poly_at(r.coeffs@, x) == self.round_at(x),
            rounds::half() * (poly::poly_at(r.coeffs@, EF::zero_spec()) + poly::poly_at(r.coeffs@, EF::one_spec()))
                == self.claim(),
    {
        let columns: usize = self.values.len();
        let n_vars: usize = self.current_n_vars;
        let len: usize = self.values[0].len();
        let pairs: usize = len / 2;
        let ghost v = column_values(self.values@);
        let ghost c = column_values(self.coefficients@);
        let ghost m = columns as nat;
        proof {
            lemma_pow2_unfold(n_vars as nat);
        }
        rounds::columns_canonical(&self.values);
        rounds::columns_canonical(&self.coefficients);
        let mut e0 = EF::zero();
        let mut e1 = EF::zero();
        let mut e2 = EF::zero();
        let mut s: usize = 0;
        while s < columns
            invariant
                s <= columns,
                columns == self.values@.len(),
                self.wf(),
                len == pow2(self.current_n_vars as nat),
                pairs == len / 2,
                v == column_values(self.values@),
                c == column_values(self.coefficients@),
                forall|t: int, i: int|
                    0 <= t < columns && 0 <= i < self.values@[t]@.len() ==> (
                    #[trigger] self.values@[t]@[i]).canonical(),
                forall|t: int, i: int|
                    0 <= t < columns && 0 <= i < self.coefficients@[t]@.len() ==> (
                    #[trigger] self.coefficients@[t]@[i]).canonical(),
                e0 == rounds::product_round(s as nat, pairs as nat, v, c, poly::node(0)),
                e1 == rounds::product_round(s as nat, pairs as nat, v, c, poly::node(1)),
                e2 == rounds::product_round(s as nat, pairs as nat, v, c, poly::node(2)),
            decreases columns - s,
        {
            let values = &self.values[s];
            let coefficients = &self.coefficients[s];
            let (d0, d1, d2) = dense_column_round(values, coefficients, pairs);
            proof {
                let d = |i: int| coefficients@[i];
                lemma_column_of_round(v, c, values@, d, s as int, pairs as nat, poly::node(0));
                lemma_column_of_round(v, c, values@, d, s as int, pairs as nat, poly::node(1));
                lemma_column_of_round(v, c, values@, d, s as int, pairs as nat, poly::node(2));
            }
            e0 = e0.add(d0);
            e1 = e1.add(d1);
            e2 = e2.add(d2);
            s = s + 1;
        }
        let weight = rounds::constant_half_eq_eval(n_vars - 1).mul(self.missing_mul_factor);
        let r = rounds::quadratic(weight.mul(e0), weight.mul(e1), weight.mul(e2));
        proof {
            assert forall|i: int| 0 <= i < 3 implies poly::poly_at(r.coeffs@, #[trigger] poly::node(i)) == weight
                * rounds::product_round(m, pairs as nat, v, c, poly::node(i)) by {
                if i == 0 {
                } else if i == 1 {
                } else {
                    assert(i == 2);
                }
            }
            assert forall|x: EF| #[trigger] poly::poly_at(r.coeffs@, x) == self.round_at(x) by {
                rounds::lemma_round_unique(r.coeffs@, m, pairs as nat, v, c, weight, x);
            }
            lemma_round_claim(m, n_vars as nat, v, c, self.missing_mul_factor);
        }
        r
    }

    /// Sets the lowest variable to `challenge`. With the polynomial of the round, the new sum is the
    /// claim that is left.
    pub fn process_challenge(&mut self, challenge: EF, bare_poly: &DensePolynomial)
        requires
            old(self).wf(),
            old(self).current_n_vars > 0,
        ensures
            final(self).wf(),
            final(self).current_n_vars == old(self).current_n_vars - 1,
            final(self).initial_n_vars == old(self).initial_n_vars,
            final(self).sum == poly::poly_at(bare_poly.coeffs@, challenge) * rounds::eq_step(
                rounds::half(),
                challenge,
            ),
            final(self).missing_mul_factor == old(self).missing_mul_factor * rounds::eq_step(
                rounds::half(),
                challenge,
            ),
            final(self).values@.len() == old(self).values@.len(),
            forall|s: int, j: int|
                0 <= s < old(self).values@.len() && 0 <= j < pow2((old(self).current_n_vars - 1) as nat)
                    ==> #[trigger] final(self).values@[s]@[j] == rounds::line(
                    old(self).values@[s]@[2 * j],
                    old(self).values@[s]@[2 * j + 1],
                    challenge,
                ),
            forall|s: int, j: int|
                0 <= s < old(self).values@.len() && 0 <= j < pow2((old(self).current_n_vars - 1) as nat)
                    ==> #[trigger] final(self).coefficients@[s]@[j] == rounds::line(
                    old(self).coefficients@[s]@[2 * j],
                    old(self).coefficients@[s]@[2 * j + 1],
                    challenge,
                ),
            poly::poly_at(bare_poly.coeffs@, challenge) == old(self).round_at(challenge) ==> final(self).sum
                == final(self).claim(),
    {
        let ghost before = *self;
        let alpha = self.eq_alpha();
        let step = rounds::eq_step_eval(alpha, challenge);
        self.sum = bare_poly.evaluate(challenge).mul(step);
        self.missing_mul_factor = self.missing_mul_factor.mul(step);
        rounds::fold_adjacent(&mut self.values, challenge);
        rounds::fold_adjacent(&mut self.coefficients, challenge);
        self.current_n_vars = self.current_n_vars - 1;
        challenge.assert_canonical();
        proof {
            let n: nat = self.current_n_vars as nat;
            lemma_pow2_unfold(before.current_n_vars as nat);
            assert forall|s: int| 0 <= s < self.values@.len() implies (#[trigger] self.values@[s])@.len() == pow2(n) by {
                assert(before.values@[s]@.len() == pow2(n + 1));
            }
            assert forall|s: int| 0 <= s < self.coefficients@.len() implies (
            #[trigger] self.coefficients@[s])@.len() == pow2(n) by {
                assert(before.coefficients@[s]@.len() == pow2(n + 1));
            }
            let v = column_values(before.values@);
            let c = column_values(before.coefficients@);
            let w = column_values(self.values@);
            let d = column_values(self.coefficients@);
            assert forall|s: int, j: int|
                0 <= s < self.values@.len() && 0 <= j < pow2(n) implies #[trigger] w(s, j) == rounds::line(
                v(s, 2 * j),
                v(s, 2 * j + 1),
                challenge,
            ) by {
                assert(before.values@[s]@.len() == pow2(n + 1));
                assert(self.values@[s]@[j] == w(s, j));
            }
            assert forall|s: int, j: int|
                0 <= s < self.values@.len() && 0 <= j < pow2(n) implies #[trigger] d(s, j) == rounds::line(
                c(s, 2 * j),
                c(s, 2 * j + 1),
                challenge,
            ) by {
                assert(before.coefficients@[s]@.len() == pow2(n + 1));
                assert(self.coefficients@[s]@[j] == d(s, j));
            }
            lemma_folded_claim(self.values@.len(), n, v, c, w, d, before.missing_mul_factor, challenge);
        }
    }

    /// The first value of every column: all that is left when every variable is set.
    pub fn final_column_evals(&self) -> (r: Vec<EF>)
        requires
            self.wf(),
        ensures
            r@.len() == self.values@.len(),
            forall|s: int| 0 <= s < r@.len() ==> #[trigger] r@[s] == self.values@[s]@[0],
    {
        proof {
            lemma_pow2_pos(self.current_n_vars as nat);
        }
        first_values(&self.values)
    }
}

fn first_values(columns: &Vec<Vec<EF>>) -> (r: Vec<EF>)
    requires
        forall|s: int| 0 <= s < columns@.len() ==> (#[trigger] columns@[s])@.len() > 0,
    ensures
        r@.len() == columns@.len(),
        forall|s: int| 0 <= s < r@.len() ==> #[trigger] r@[s] == columns@[s]@[0],
{
    let mut out: Vec<EF> = Vec::new();
    let mut s: usize = 0;
    while s < columns.len()
        invariant
            s <= columns@.len(),
            forall|t: int| 0 <= t < columns@.len() ==> (#[trigger] columns@[t])@.len() > 0,
            out@.len() == s,
            forall|t: int| 0 <= t < s ==> #[trigger] out@[t] == columns@[t]@[0],
        decreases columns@.len() - s,
    {
        let value = columns[s][0];
        out.push(value);
        s = s + 1;
    }
    out
}

/// The round of one column.
pub open spec fn column_round(values: Seq<EF>, c: spec_fn(int) -> EF, pairs: nat, x: EF) -> EF {
    sums::sum(
        pairs,
        |j: int| rounds::line(values[2 * j], values[2 * j + 1], x) * rounds::line(c(2 * j), c(2 * j + 1), x),
    )
}

/// One more column adds its round.
proof fn lemma_column_of_round(
    v: spec_fn(int, int) -> EF,
    c: spec_fn(int, int) -> EF,
    values: Seq<EF>,
    d: spec_fn(int) -> EF,
    s: int,
    pairs: nat,
    x: EF,
)
    requires
        s >= 0,
        forall|i: int| 0 <= i < 2 * pairs ==> v(s, i) == #[trigger] values[i],
        forall|i: int| 0 <= i < 2 * pairs ==> c(s, i) == #[trigger] d(i),
    ensures
        rounds::product_round((s + 1) as nat, pairs, v, c, x) == rounds::product_round(s as nat, pairs, v, c, x)
            + column_round(values, d, pairs, x),
{
    let a = |j: int|
        rounds::line(v(s, 2 * j), v(s, 2 * j + 1), x) * rounds::line(c(s, 2 * j), c(s, 2 * j + 1), x);
    let b = |j: int| rounds::line(values[2 * j], values[2 * j + 1], x) * rounds::line(d(2 * j), d(2 * j + 1), x);
    assert forall|j: int| 0 <= j < pairs implies #[trigger] a(j) == b(j) by {
        assert(v(s, 2 * j) == values[2 * j] && v(s, 2 * j + 1) == values[2 * j + 1]);
        assert(c(s, 2 * j) == d(2 * j) && c(s, 2 * j + 1) == d(2 * j + 1));
    }
    sums::lemma_sum_ext(pairs, a, b);
}

/// The round of one column at zero, one and two.
fn dense_column_round(values: &Vec<EF>, coefficients: &Vec<EF>, pairs: usize) -> (r: (EF, EF, EF))
    requires
        2 * pairs <= values@.len(),
        2 * pairs <= coefficients@.len(),
        forall|i: int| 0 <= i < values@.len() ==> (#[trigger] values@[i]).canonical(),
        forall|i: int| 0 <= i < coefficients@.len() ==> (#[trigger] coefficients@[i]).canonical(),
    ensures
        r.0 == column_round(values@, |i: int| coefficients@[i], pairs as nat, poly::node(0)),
        r.1 == column_round(values@, |i: int| coefficients@[i], pairs as nat, poly::node(1)),
        r.2 == column_round(values@, |i: int| coefficients@[i], pairs as nat, poly::node(2)),
{
    let ghost c = |i: int| coefficients@[i];
    let mut e0 = EF::zero();
    let mut e1 = EF::zero();
    let mut e2 = EF::zero();
    let len: usize = values.len();
    let mut j: usize = 0;
    while j < pairs
        invariant
            j <= pairs,
            len == values@.len(),
            2 * pairs <= len,
            2 * pairs <= coefficients@.len(),
            forall|i: int| 0 <= i < values@.len() ==> (#[trigger] values@[i]).canonical(),
            forall|i: int| 0 <= i < coefficients@.len() ==> (#[trigger] coefficients@[i]).canonical(),
            c == (|i: int| coefficients@[i]),
            e0 == column_round(values@, c, j as nat, poly::node(0)),
            e1 == column_round(values@, c, j as nat, poly::node(1)),
            e2 == column_round(values@, c, j as nat, poly::node(2)),
        decreases pairs - j,
    {
        let (t0, t1, t2) = pair_round(values[2 * j], values[2 * j + 1], coefficients[2 * j], coefficients[2 * j + 1]);
        e0 = e0.add(t0);
        e1 = e1.add(t1);
        e2 = e2.add(t2);
        j = j + 1;
    }
    (e0, e1, e2)
}

/// The products of two lines at zero, one and two.
fn pair_round(v0: EF, v1: EF, c0: EF, c1: EF) -> (r: (EF, EF, EF))
    ensures
        r.0 == rounds::line(v0, v1, poly::node(0)) * rounds::line(c0, c1, poly::node(0)),
        r.1 == rounds::line(v0, v1, poly::node(1)) * rounds::line(c0, c1, poly::node(1)),
        r.2 == rounds::line(v0, v1, poly::node(2)) * rounds::line(c0, c1, poly::node(2)),
{
    v0.assert_canonical();
    c0.assert_canonical();
    proof {
        rounds::lemma_line_nodes(v0, v1);
        rounds::lemma_line_nodes(c0, c1);
    }
    let v_delta = v1.sub(v0);
    let c_delta = c1.sub(c0);
    (
        v0.mul(c0),
        v0.add(v_delta).mul(c0.add(c_delta)),
        v0.add(v_delta.double()).mul(c0.add(c_delta.double())),
    )
}

/// The values of a round at zero and one, each weighted by one half, are the claim.
pub proof fn lemma_round_claim(m: nat, n: nat, v: spec_fn(int, int) -> EF, c: spec_fn(int, int) -> EF, missing: EF)
    requires
        n > 0,
        forall|s: int, i: int| 0 <= s < m && 0 <= i < pow2(n) ==> (#[trigger] v(s, i)).canonical(),
        forall|s: int, i: int| 0 <= s < m && 0 <= i < pow2(n) ==> (#[trigger] c(s, i)).canonical(),
    ensures
        ({
            let w = claim_weight((n - 1) as nat, missing);
            let pairs = pow2((n - 1) as nat);
            rounds::half() * (w * rounds::product_round(m, pairs, v, c, EF::zero_spec()) + w
                * rounds::product_round(m, pairs, v, c, EF::one_spec())) == claim_weight(n, missing)
                * rounds::product_sum(m, pow2(n), v, c)
        }),
{
    let h = rounds::half();
    let b: nat = (n - 1) as nat;
    let w = claim_weight(b, missing);
    lemma_pow2_unfold(n);
    let pairs = pow2(b);
    let r0 = rounds::product_round(m, pairs, v, c, poly::node(0));
    let r1 = rounds::product_round(m, pairs, v, c, poly::node(1));
    rounds::lemma_round_sum(m, pairs, v, c);
    ext::lemma_mul_distrib_right(w, r0, r1);
    ext::lemma_mul_assoc(h, w, r0 + r1);
    // h (h^b missing) == h^n missing
    ext::lemma_mul_assoc(h, h.pow(b), missing);
    ext::lemma_mul_comm(h, h.pow(b));
}

/// Folding with a challenge leaves the claim of the round at the challenge.
pub proof fn lemma_folded_claim(
    m: nat,
    n: nat,
    v: spec_fn(int, int) -> EF,
    c: spec_fn(int, int) -> EF,
    w: spec_fn(int, int) -> EF,
    d: spec_fn(int, int) -> EF,
    missing: EF,
    r: EF,
)
    requires
        r.canonical(),
        forall|s: int, j: int|
            0 <= s < m && 0 <= j < pow2(n) ==> #[trigger] w(s, j) == rounds::line(v(s, 2 * j), v(s, 2 * j + 1), r),
        forall|s: int, j: int|
            0 <= s < m && 0 <= j < pow2(n) ==> #[trigger] d(s, j) == rounds::line(c(s, 2 * j), c(s, 2 * j + 1), r),
    ensures
        (claim_weight(n, missing) * rounds::product_round(m, pow2(n), v, c, r)) * rounds::eq_step(rounds::half(), r)
            == claim_weight(n, missing * rounds::eq_step(rounds::half(), r)) * rounds::product_sum(
            m,
            pow2(n),
            w,
            d,
        ),
{
    let h = rounds::half();
    rounds::lemma_half_step(r);
    let a = |s: int|
        sums::sum(
            pow2(n),
            |j: int| rounds::line(v(s, 2 * j), v(s, 2 * j + 1), r) * rounds::line(c(s, 2 * j), c(s, 2 * j + 1), r),
        );
    let b = |s: int| sums::sum(pow2(n), |i: int| w(s, i) * d(s, i));
    assert forall|s: int| 0 <= s < m implies #[trigger] a(s) == b(s) by {
        let f = |j: int|
            rounds::line(v(s, 2 * j), v(s, 2 * j + 1), r) * rounds::line(c(s, 2 * j), c(s, 2 * j + 1), r);
        let g = |i: int| w(s, i) * d(s, i);
        assert forall|j: int| 0 <= j < pow2(n) implies #[trigger] f(j) == g(j) by {
            assert(w(s, j) == rounds::line(v(s, 2 * j), v(s, 2 * j + 1), r));
            assert(d(s, j) == rounds::line(c(s, 2 * j), c(s, 2 * j + 1), r));
        }
        sums::lemma_sum_ext(pow2(n), f, g);
    }
    sums::lemma_sum_ext(m, a, b);
    let p = rounds::product_round(m, pow2(n), v, c, r);
    let k = h.pow(n);
    // ((k missing) p) h == (k (missing h)) p
    ext::lemma_mul_assoc(k * missing, p, h);
    ext::lemma_mul_comm(p, h);
    ext::lemma_mul_assoc(k * missing, h, p);
    ext::lemma_mul_assoc(k, missing, h);
}

/// The coefficients of a sparse column.
pub open spec fn sparse_column(column: Seq<SparseCoeff>) -> spec_fn(int) -> EF {
    |i: int| sparse::value_at(column, i)
}

/// One more run of terms of one parent adds the round of that parent.
proof fn lemma_sparse_column_round(
    values: Seq<EF>,
    head: Seq<SparseCoeff>,
    group: Seq<SparseCoeff>,
    parent: int,
    pairs: nat,
    x: EF,
)
    requires
        sparse::has_parent(group, parent),
        0 <= parent < pairs,
    ensures
        column_round(values, sparse_column(head + group), pairs, x) == column_round(
            values,
            sparse_column(head),
            pairs,
            x,
        ) + rounds::line(values[2 * parent], values[2 * parent + 1], x) * rounds::line(
            sparse::value_at(group, 2 * parent),
            sparse::value_at(group, 2 * parent + 1),
            x,
        ),
{
    let z = EF::zero_spec();
    let all = sparse_column(head + group);
    let old = sparse_column(head);
    let new = sparse_column(group);
    let v = |j: int| rounds::line(values[2 * j], values[2 * j + 1], x);
    let f = |j: int| rounds::line(values[2 * j], values[2 * j + 1], x) * rounds::line(all(2 * j), all(2 * j + 1), x);
    let g = |j: int| rounds::line(values[2 * j], values[2 * j + 1], x) * rounds::line(old(2 * j), old(2 * j + 1), x);
    let h = |j: int| rounds::line(values[2 * j], values[2 * j + 1], x) * rounds::line(new(2 * j), new(2 * j + 1), x);
    let both = |j: int| g(j) + h(j);
    assert forall|j: int| 0 <= j < pairs implies #[trigger] f(j) == both(j) by {
        sparse::lemma_folded_concat(head, group, x, j);
        ext::lemma_mul_distrib_right(
            v(j),
            sparse::folded_value(head, x, j),
            sparse::folded_value(group, x, j),
        );
    }
    sums::lemma_sum_ext(pairs, f, both);
    sums::lemma_sum_add(pairs, g, h);
    assert forall|j: int| 0 <= j < pairs && j != parent implies #[trigger] h(j) == z by {
        sparse::lemma_group_elsewhere(group, parent, j);
        sparse::lemma_folded_unlisted(group, x, j);
        ext::lemma_mul_zero(v(j));
    }
    ext::lemma_mul_canonical(
        v(parent),
        rounds::line(new(2 * parent), new(2 * parent + 1), x),
    );
    sums::lemma_sum_single(pairs, parent, h);
}

/// The round of one column at zero, one and two.
fn sparse_column_round(values: &Vec<EF>, column: &Vec<SparseCoeff>, pairs: usize) -> (r: (EF, EF, EF))
    requires
        2 * pairs <= values@.len(),
        sparse::rows_below(column@, 2 * pairs),
    ensures
        r.0 == column_round(values@, sparse_column(column@), pairs as nat, poly::node(0)),
        r.1 == column_round(values@, sparse_column(column@), pairs as nat, poly::node(1)),
        r.2 == column_round(values@, sparse_column(column@), pairs as nat, poly::node(2)),
{
    let mut e0 = EF::zero();
    let mut e1 = EF::zero();
    let mut e2 = EF::zero();
    let len: usize = values.len();
    let n: usize = column.len();
    let mut idx: usize = 0;
    proof {
        lemma_empty_round(values@, column@.subrange(0, 0), pairs as nat, poly::node(0));
        lemma_empty_round(values@, column@.subrange(0, 0), pairs as nat, poly::node(1));
        lemma_empty_round(values@, column@.subrange(0, 0), pairs as nat, poly::node(2));
    }
    while idx < n
        invariant
            idx <= n,
            n == column@.len(),
            len == values@.len(),
            2 * pairs <= len,
            sparse::rows_below(column@, 2 * pairs),
            e0 == column_round(values@, sparse_column(column@.subrange(0, idx as int)), pairs as nat, poly::node(0)),
            e1 == column_round(values@, sparse_column(column@.subrange(0, idx as int)), pairs as nat, poly::node(1)),
            e2 == column_round(values@, sparse_column(column@.subrange(0, idx as int)), pairs as nat, poly::node(2)),
        decreases n - idx,
    {
        let parent: usize = column[idx].row / 2;
        assert(column@[idx as int].row < 2 * pairs);
        let (end, c0, c1) = sparse::group_at(column, idx);
        let (t0, t1, t2) = pair_round(values[2 * parent], values[2 * parent + 1], c0, c1);
        proof {
            let head = column@.subrange(0, idx as int);
            let group = column@.subrange(idx as int, end as int);
            assert(column@.subrange(0, end as int) =~= head + group);
            lemma_sparse_column_round(values@, head, group, parent as int, pairs as nat, poly::node(0));
            lemma_sparse_column_round(values@, head, group, parent as int, pairs as nat, poly::node(1));
            lemma_sparse_column_round(values@, head, group, parent as int, pairs as nat, poly::node(2));
        }
        e0 = e0.add(t0);
        e1 = e1.add(t1);
        e2 = e2.add(t2);
        idx = end;
    }
    assert(column@.subrange(0, n as int) =~= column@);
    (e0, e1, e2)
}

/// A column without terms has a round of zero.
proof fn lemma_empty_round(values: Seq<EF>, column: Seq<SparseCoeff>, pairs: nat, x: EF)
    requires
        column.len() == 0,
    ensures
        column_round(values, sparse_column(column), pairs, x) == EF::zero_spec(),
{
    let z = EF::zero_spec();
    let c = sparse_column(column);
    let f = |j: int| rounds::line(values[2 * j], values[2 * j + 1], x) * rounds::line(c(2 * j), c(2 * j + 1), x);
    assert forall|j: int| 0 <= j < pairs implies #[trigger] f(j) == z by {
        sparse::lemma_folded_unlisted(column, x, j);
        ext::lemma_mul_zero(rounds::line(values[2 * j], values[2 * j + 1], x));
    }
    sums::lemma_sum_zero(pairs, f);
}

/// The session of a claim with sparse coefficients.
#[derive(Debug)]
pub struct VirtualLinearBusSession {
    pub values: Vec<Vec<EF>>,
    pub coefficients: Vec<Vec<SparseCoeff>>,
    pub current_n_vars: usize,
    pub initial_n_vars: usize,
    pub sum: EF,
    pub missing_mul_factor: EF,
}

impl VirtualLinearBusSession {
    /// Whether there are as many values as the variables that are left ask for, and no term stands
    /// below them.
    pub open spec fn wf(self) -> bool {
        &&& self.values@.len() == self.coefficients@.len()
        &&& forall|s: int| 0 <= s < self.values@.len() ==> (#[trigger] self.values@[s])@.len() == pow2(self.current_n_vars as nat)
        &&& forall|s: int|
            0 <= s < self.coefficients@.len() ==> sparse::rows_below(
                (#[trigger] self.coefficients@[s])@,
                pow2(self.current_n_vars as nat) as int,
            )
    }

    /// What the round claims at `x`, without the equality polynomial.
    pub open spec fn round_at(self, x: EF) -> EF {
        claim_weight((self.current_n_vars - 1) as nat, self.missing_mul_factor) * rounds::product_round(
            self.values@.len(),
            pow2((self.current_n_vars - 1) as nat),
            column_values(self.values@),
            sparse_values(self.coefficients@),
            x,
        )
    }

    /// The weighted sum of all products of values and coefficients.
    pub open spec fn claim(self) -> EF {
        claim_weight(self.current_n_vars as nat, self.missing_mul_factor) * rounds::product_sum(
            self.values@.len(),
            pow2(self.current_n_vars as nat),
            column_values(self.values@),
            sparse_values(self.coefficients@),
        )
    }

    /// Starts the session of the columns `column_indexes` of the table.
    pub fn new(
        committed_columns: &Vec<Vec<F>>,
        column_indexes: Vec<usize>,
        coefficients: Vec<Vec<SparseCoeff>>,
        log_rows: usize,
    ) -> (r: VirtualLinearBusSession)
        requires
            column_indexes@.len() == coefficients@.len(),
            forall|s: int| 0 <= s < column_indexes@.len() ==> (#[trigger] column_indexes@[s]) < committed_columns@.len(),
            forall|c: int|
                0 <= c < committed_columns@.len() ==> (#[trigger] committed_columns@[c])@.len() == pow2(log_rows as nat),
            forall|s: int|
                0 <= s < coefficients@.len() ==> sparse::rows_below(
                    (#[trigger] coefficients@[s])@,
                    pow2(log_rows as nat) as int,
                ),
        ensures
            r.wf(),
            lifted_columns(committed_columns@, column_indexes@, r.values@),
            r.coefficients@ == coefficients@,
            r.current_n_vars == log_rows,
            r.initial_n_vars == log_rows,
            r.sum == EF::zero_spec(),
            r.missing_mul_factor == EF::one_spec(),
    {
        let values = lift_columns(committed_columns, &column_indexes);
        VirtualLinearBusSession {
            values,
            coefficients,
            current_n_vars: log_rows,
            initial_n_vars: log_rows,
            sum: EF::zero(),
            missing_mul_factor: EF::one(),
        }
    }

    /// The name of the session.
    pub fn label(&self) -> (r: &'static str)
        ensures
            r@ == "sparse linear"@,
    {
        "sparse linear"
    }

    /// The number of variables at the start.
    pub fn initial_n_vars(&self) -> (r: usize)
        ensures
            r == self.initial_n_vars,
    {
        self.initial_n_vars
    }

    /// The claimed sum.
    pub fn sum(&self) -> (r: EF)
        ensures
            r == self.sum,
    {
        self.sum
    }

    /// The degree of a round, without the equality polynomial.
    pub fn bare_degree(&self) -> (r: usize)
        ensures
            r == 2,
    {
        VIRTUAL_LINEAR_BUS_BARE_DEGREE
    }

    /// The challenge of the equality polynomial.
    pub fn eq_alpha(&self) -> (r: EF)
        ensures
            r == rounds::half(),
    {
        rounds::virtual_linear_eq_alpha()
    }

    /// The polynomial of the round. Its values at zero and one, weighted by the equality polynomial,
    /// add up to the claim.
    pub fn compute_bare_round_poly(&self) -> (r: DensePolynomial)
        requires
            self.wf(),
            self.values@.len() > 0,
            self.current_n_vars > 0,
        ensures
            r.coeffs@.len() == 3,
            forall|x: EF| #[trigger] poly::poly_at(r.coeffs@, x) == self.round_at(x),
            rounds::half() * (poly::poly_at(r.coeffs@, EF::zero_spec()) + poly::poly_at(r.coeffs@, EF::one_spec()))
                == self.claim(),
    {
        let columns: usize = self.values.len();
        let n_vars: usize = self.current_n_vars;
        let len: usize = self.values[0].len();
        let pairs: usize = len / 2;
        let ghost v = column_values(self.values@);
        let ghost c = sparse_values(self.coefficients@);
        let ghost m = columns as nat;
        proof {
            lemma_pow2_unfold(n_vars as nat);
        }
        rounds::columns_canonical(&self.values);
        let mut e0 = EF::zero();
        let mut e1 = EF::zero();
        let mut e2 = EF::zero();
        let mut s: usize = 0;
        while s < columns
            invariant
                s <= columns,
                columns == self.values@.len(),
                self.wf(),
                len == pow2(self.current_n_vars as nat),
                len == 2 * pairs,
                v == column_values(self.values@),
                c == sparse_values(self.coefficients@),
                e0 == rounds::product_round(s as nat, pairs as nat, v, c, poly::node(0)),
                e1 == rounds::product_round(s as nat, pairs as nat, v, c, poly::node(1)),
                e2 == rounds::product_round(s as nat, pairs as nat, v, c, poly::node(2)),
            decreases columns - s,
        {
            let values = &self.values[s];
            let coefficients = &self.coefficients[s];
            let (d0, d1, d2) = sparse_column_round(values, coefficients, pairs);
            proof {
                lemma_column_of_round(v, c, values@, sparse_column(coefficients@), s as int, pairs as nat, poly::node(0));
                lemma_column_of_round(v, c, values@, sparse_column(coefficients@), s as int, pairs as nat, poly::node(1));
                lemma_column_of_round(v, c, values@, sparse_column(coefficients@), s as int, pairs as nat, poly::node(2));
            }
            e0 = e0.add(d0);
            e1 = e1.add(d1);
            e2 = e2.add(d2);
            s = s + 1;
        }
        let weight = rounds::constant_half_eq_eval(n_vars - 1).mul(self.missing_mul_factor);
        let r = rounds::quadratic(weight.mul(e0), weight.mul(e1), weight.mul(e2));
        proof {
            assert forall|i: int| 0 <= i < 3 implies poly::poly_at(r.coeffs@, #[trigger] poly::node(i)) == weight
                * rounds::product_round(m, pairs as nat, v, c, poly::node(i)) by {
                if i == 0 {
                } else if i == 1 {
                } else {
                    assert(i == 2);
                }
            }
            assert forall|x: EF| #[trigger] poly::poly_at(r.coeffs@, x) == self.round_at(x) by {
                rounds::lemma_round_unique(r.coeffs@, m, pairs as nat, v, c, weight, x);
            }
            assert forall|s: int, i: int| 0 <= s < m && 0 <= i < len implies (#[trigger] v(s, i)).canonical() by {
                assert(self.values@[s]@[i].canonical());
            }
            assert forall|s: int, i: int| 0 <= s < m && 0 <= i < len implies (#[trigger] c(s, i)).canonical() by {
                lemma_value_canonical(self.coefficients@[s]@, i);
            }
            lemma_round_claim(m, n_vars as nat, v, c, self.missing_mul_factor);
        }
        r
    }

    /// Sets the lowest variable to `challenge`. With the polynomial of the round, the new sum is the
    /// claim that is left.
    pub fn process_challenge(&mut self, challenge: EF, bare_poly: &DensePolynomial)
        requires
            old(self).wf(),
            old(self).current_n_vars > 0,
        ensures
            final(self).wf(),
            final(self).current_n_vars == old(self).current_n_vars - 1,
            final(self).initial_n_vars == old(self).initial_n_vars,
            final(self).sum == poly::poly_at(bare_poly.coeffs@, challenge) * rounds::eq_step(
                rounds::half(),
                challenge,
            ),
            final(self).missing_mul_factor == old(self).missing_mul_factor * rounds::eq_step(
                rounds::half(),
                challenge,
            ),
            final(self).values@.len() == old(self).values@.len(),
            forall|s: int, j: int|
                0 <= s < old(self).values@.len() && 0 <= j < pow2((old(self).current_n_vars - 1) as nat)
                    ==> #[trigger] final(self).values@[s]@[j] == rounds::line(
                    old(self).values@[s]@[2 * j],
                    old(self).values@[s]@[2 * j + 1],
                    challenge,
                ),
            forall|s: int, j: int|
                0 <= s < old(self).values@.len() ==> #[trigger] sparse::value_at(final(self).coefficients@[s]@, j)
                    == sparse::folded_value(old(self).coefficients@[s]@, challenge, j),
            poly::poly_at(bare_poly.coeffs@, challenge) == old(self).round_at(challenge) ==> final(self).sum
                == final(self).claim(),
    {
        let ghost before = *self;
        let alpha = self.eq_alpha();
        let step = rounds::eq_step_eval(alpha, challenge);
        self.sum = bare_poly.evaluate(challenge).mul(step);
        self.missing_mul_factor = self.missing_mul_factor.mul(step);
        rounds::fold_adjacent(&mut self.values, challenge);
        fold_sparse_coefficients(&mut self.coefficients, challenge);
        self.current_n_vars = self.current_n_vars - 1;
        challenge.assert_canonical();
        proof {
            let n: nat = self.current_n_vars as nat;
            lemma_pow2_unfold(before.current_n_vars as nat);
            assert forall|s: int| 0 <= s < self.values@.len() implies (#[trigger] self.values@[s])@.len() == pow2(n) by {
                assert(before.values@[s]@.len() == pow2(n + 1));
            }
            assert forall|s: int| 0 <= s < self.coefficients@.len() implies sparse::rows_below(
                (#[trigger] self.coefficients@[s])@,
                pow2(n) as int,
            ) by {
                assert(sparse::rows_below(before.coefficients@[s]@, 2 * (pow2(n) as int)));
            }
            let v = column_values(before.values@);
            let c = sparse_values(before.coefficients@);
            let w = column_values(self.values@);
            let d = sparse_values(self.coefficients@);
            assert forall|s: int, j: int|
                0 <= s < self.values@.len() && 0 <= j < pow2(n) implies #[trigger] w(s, j) == rounds::line(
                v(s, 2 * j),
                v(s, 2 * j + 1),
                challenge,
            ) by {
                assert(before.values@[s]@.len() == pow2(n + 1));
                assert(self.values@[s]@[j] == w(s, j));
            }
            assert forall|s: int, j: int|
                0 <= s < self.values@.len() && 0 <= j < pow2(n) implies #[trigger] d(s, j) == rounds::line(
                c(s, 2 * j),
                c(s, 2 * j + 1),
                challenge,
            ) by {
                assert(sparse::value_at(self.coefficients@[s]@, j) == sparse::folded_value(
                    before.coefficients@[s]@,
                    challenge,
                    j,
                ));
            }
            lemma_folded_claim(self.values@.len(), n, v, c, w, d, before.missing_mul_factor, challenge);
        }
    }

    /// The first value of every column: all that is left when every variable is set.
    pub fn final_column_evals(&self) -> (r: Vec<EF>)
        requires
            self.wf(),
        ensures
            r@.len() == self.values@.len(),
            forall|s: int| 0 <= s < r@.len() ==> #[trigger] r@[s] == self.values@[s]@[0],
    {
        proof {
            lemma_pow2_pos(self.current_n_vars as nat);
        }
        first_values(&self.values)
    }
}

/// Sets the lowest variable of every sparse column to `challenge`.
pub fn fold_sparse_coefficients(columns: &mut Vec<Vec<SparseCoeff>>, challenge: EF)
    ensures
        final(columns)@.len() == old(columns)@.len(),
        forall|s: int|
            0 <= s < old(columns)@.len() ==> sparse::no_zeros((#[trigger] final(columns)@[s])@),
        forall|s: int|
            0 <= s < old(columns)@.len() && sparse::sorted(old(columns)@[s]@) ==> sparse::strictly_sorted(
                (#[trigger] final(columns)@[s])@,
            ),
        forall|s: int, j: int|
            0 <= s < old(columns)@.len() ==> #[trigger] sparse::value_at(final(columns)@[s]@, j)
                == sparse::folded_value(old(columns)@[s]@, challenge, j),
        forall|s: int, half: int|
            0 <= s < old(columns)@.len() && sparse::rows_below(old(columns)@[s]@, 2 * half)
                ==> #[trigger] sparse::rows_below(final(columns)@[s]@, half),
{
    let ghost before = columns@;
    let n: usize = columns.len();
    let mut s: usize = 0;
    while s < n
        invariant
            s <= n,
            n == before.len(),
            columns@.len() == n,
            forall|t: int| s <= t < n ==> #[trigger] columns@[t] == before[t],
            forall|t: int| 0 <= t < s ==> sparse::no_zeros((#[trigger] columns@[t])@),
            forall|t: int|
                0 <= t < s && sparse::sorted(before[t]@) ==> sparse::strictly_sorted((#[trigger] columns@[t])@),
            forall|t: int, j: int|
                0 <= t < s ==> #[trigger] sparse::value_at(columns@[t]@, j) == sparse::folded_value(
                    before[t]@,
                    challenge,
                    j,
                ),
            forall|t: int, half: int|
                0 <= t < s && sparse::rows_below(before[t]@, 2 * half) ==> #[trigger] sparse::rows_below(
                    columns@[t]@,
                    half,
                ),
        decreases n - s,
    {
        let mut column: Vec<SparseCoeff> = Vec::new();
        std::mem::swap(&mut column, &mut columns[s]);
        sparse::fold_sparse_column(&mut column, challenge);
        columns.set(s, column);
        s = s + 1;
    }
}

proof fn lemma_value_canonical(column: Seq<SparseCoeff>, row: int)
    ensures
        sparse::value_at(column, row).canonical(),
{
    sums::lemma_sum_canonical(
        column.len(),
        |i: int|
            if column[i].row == row {
                column[i].coeff
            } else {
                EF::zero_spec()
            },
    );
}

} // verus!
