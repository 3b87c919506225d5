//! The rounds of the three sessions as the rounds of one sumcheck.
use super::protocol::ProofError;
use super::prover::Sessions;
use super::rounds;
use super::run;
use super::run::{SessionRound, SessionRun};
use crate::ext;
use crate::ext::EF;
use crate::poly;
use crate::poly::DensePolynomial;
use crate::poseidon::PoseidonConstants;
use vstd::prelude::*;

verus! {

/// The degree of the rounds: nine of the constraints, and one of the equality polynomial.
pub const BATCH_DEGREE: usize = 10;

/// The polynomial times the factor of the equality polynomial.
pub open spec fn step_poly(alpha: EF, c: Seq<EF>) -> Seq<EF> {
    let rest = EF::one_spec() - alpha;
    poly::poly_add(poly::poly_times(rest, c), poly::poly_shift(poly::poly_times(alpha - rest, c)))
}

/// The factor of the equality polynomial is the line from `1 - alpha` to `alpha`.
proof fn lemma_step_line(alpha: EF, x: EF)
    ensures
        rounds::eq_step(alpha, x) == (EF::one_spec() - alpha) + x * (alpha - (EF::one_spec() - alpha)),
{
    let z = EF::zero_spec();
    let one = EF::one_spec();
    let rest = one - alpha;
    ext::lemma_add_canonical(one, alpha);
    ext::lemma_mul_one(rest);
    ext::lemma_mul_distrib_sub_right(rest, one, x);
    ext::lemma_mul_distrib_sub_right(x, alpha, rest);
    ext::lemma_mul_comm(x, alpha);
    ext::lemma_mul_comm(x, rest);
    ext::lemma_mul_canonical(alpha, x);
    ext::lemma_mul_canonical(rest, x);
    ext::lemma_sub_exchange(rest, alpha * x, rest * x, z);
    ext::lemma_sub_exchange(rest, alpha * x, z, rest * x);
    ext::lemma_add_comm(z, rest * x);
    ext::lemma_add_zero(rest);
    ext::lemma_add_zero(alpha * x);
    ext::lemma_sub_add_cancel(rest, z);
    ext::lemma_sub_add_cancel(alpha * x, z);
}

pub proof fn lemma_step_poly(alpha: EF, c: Seq<EF>, x: EF)
    ensures
        poly::poly_at(step_poly(alpha, c), x) == poly::poly_at(c, x) * rounds::eq_step(alpha, x),
        step_poly(alpha, c).len() == c.len() + 1,
{
    let rest = EF::one_spec() - alpha;
    let slope = alpha - rest;
    let v = poly::poly_at(c, x);
    poly::lemma_at_add(poly::poly_times(rest, c), poly::poly_shift(poly::poly_times(slope, c)), x);
    poly::lemma_at_times(rest, c, x);
    poly::lemma_at_shift(poly::poly_times(slope, c), x);
    poly::lemma_at_times(slope, c, x);
    ext::lemma_mul_assoc(x, slope, v);
    ext::lemma_mul_distrib_left(rest, x * slope, v);
    lemma_step_line(alpha, x);
    ext::lemma_mul_comm(rounds::eq_step(alpha, x), v);
}

/// The polynomial times the factor of the equality polynomial.
fn times_step(alpha: EF, c: &Vec<EF>) -> (r: Vec<EF>)
    ensures
        r@ == step_poly(alpha, c@),
{
    let rest = EF::one().sub(alpha);
    let slope = alpha.sub(rest);
    let ghost goal = step_poly(alpha, c@);
    let ghost shifted = poly::poly_shift(poly::poly_times(slope, c@));
    let mut out: Vec<EF> = Vec::new();
    let mut below = EF::zero();
    let n: usize = c.len();
    let mut i: usize = 0;
    while i < n
        invariant
            i <= n,
            n == c@.len(),
            rest == EF::one_spec() - alpha,
            slope == alpha - rest,
            goal == step_poly(alpha, c@),
            shifted == poly::poly_shift(poly::poly_times(slope, c@)),
            below == shifted[i as int],
            out@.len() == i,
            forall|m: int| 0 <= m < i ==> #[trigger] out@[m] == goal[m],
        decreases n - i,
    {
        out.push(rest.mul(c[i]).add(below));
        below = slope.mul(c[i]);
        i = i + 1;
    }
    out.push(EF::zero().add(below));
    assert(out@ =~= goal);
    out
}

/// The sum of a polynomial and a multiple of another.
fn plus_multiple(a: &Vec<EF>, t: EF, b: &Vec<EF>) -> (r: Vec<EF>)
    ensures
        r@ == poly::poly_add(a@, poly::poly_times(t, b@)),
{
    let ghost goal = poly::poly_add(a@, poly::poly_times(t, b@));
    let mut out: Vec<EF> = Vec::new();
    let n: usize = if a.len() < b.len() {
        b.len()
    } else {
        a.len()
    };
    let mut i: usize = 0;
    while i < n
        invariant
            i <= n,
            n == poly::larger(a@.len(), b@.len()),
            goal == poly::poly_add(a@, poly::poly_times(t, b@)),
            out@.len() == i,
            forall|m: int| 0 <= m < i ==> #[trigger] out@[m] == goal[m],
        decreases n - i,
    {
        let x = if i < a.len() {
            a[i]
        } else {
            EF::zero()
        };
        let y = if i < b.len() {
            t.mul(b[i])
        } else {
            EF::zero()
        };
        out.push(x.add(y));
        i = i + 1;
    }
    assert(out@ =~= goal);
    out
}

impl SessionRound {
    /// The sum that the round claims, mixed by `eta`.
    pub open spec fn combined_sum(self, eta: EF) -> EF {
        self.air_sum + eta * self.cell_link_sum + eta * eta * self.linear_sum
    }

    /// The value at `x` of the polynomials of the round, with their factors of the equality
    /// polynomial and mixed by `eta`.
    pub open spec fn combined_at(self, alpha: EF, eta: EF, x: EF) -> EF {
        run::value_after(self.air, alpha, x) + eta * run::value_after(self.cell_link, rounds::half(), x) + eta * eta
            * run::value_after(self.linear, rounds::half(), x)
    }

    /// The polynomials of the round as one, which is what the prover sends.
    pub fn combined(&self, alpha: EF, eta: EF) -> (r: DensePolynomial)
        ensures
            forall|x: EF| #[trigger] poly::poly_at(r.coeffs@, x) == self.combined_at(alpha, eta, x),
            r.coeffs@.len() == poly::larger(
                poly::larger(self.air.coeffs@.len(), self.cell_link.coeffs@.len()),
                self.linear.coeffs@.len(),
            ) + 1,
    {
        let half = rounds::virtual_linear_eq_alpha();
        let air = times_step(alpha, &self.air.coeffs);
        let cell_link = times_step(half, &self.cell_link.coeffs);
        let linear = times_step(half, &self.linear.coeffs);
        let square = eta.square();
        let both = plus_multiple(&air, eta, &cell_link);
        let coeffs = plus_multiple(&both, square, &linear);
        proof {
            assert forall|x: EF| #[trigger] poly::poly_at(coeffs@, x) == self.combined_at(alpha, eta, x) by {
                poly::lemma_at_add(both@, poly::poly_times(square, linear@), x);
                poly::lemma_at_times(square, linear@, x);
                poly::lemma_at_add(air@, poly::poly_times(eta, cell_link@), x);
                poly::lemma_at_times(eta, cell_link@, x);
                lemma_step_poly(alpha, self.air.coeffs@, x);
                lemma_step_poly(half, self.cell_link.coeffs@, x);
                lemma_step_poly(half, self.linear.coeffs@, x);
            }
        }
        DensePolynomial { coeffs }
    }
}

/// The factor of the equality polynomial at zero and one.
pub proof fn lemma_step_ends(alpha: EF, v: EF)
    requires
        v.canonical(),
    ensures
        v * rounds::eq_step(alpha, EF::zero_spec()) == (EF::one_spec() - alpha) * v,
        v * rounds::eq_step(alpha, EF::one_spec()) == alpha * v,
{
    let z = EF::zero_spec();
    let one = EF::one_spec();
    let rest = one - alpha;
    ext::lemma_constants_canonical();
    ext::lemma_add_canonical(one, alpha);
    ext::lemma_add_zero(one);
    ext::lemma_sub_add_cancel(one, z);
    ext::lemma_mul_one(rest);
    ext::lemma_mul_zero(alpha);
    ext::lemma_add_zero(rest);
    ext::lemma_mul_comm(v, rest);
    ext::lemma_sub_self(one);
    ext::lemma_mul_zero(rest);
    ext::lemma_mul_canonical(alpha, one);
    ext::lemma_add_comm(z, alpha * one);
    ext::lemma_add_zero(alpha * one);
    ext::lemma_mul_comm(v, alpha * one);
    ext::lemma_mul_assoc(alpha, one, v);
    ext::lemma_mul_comm(one, v);
    ext::lemma_mul_one(v);
}

/// The values at zero and one with the factor of the equality polynomial add up to the weighted ends.
pub proof fn lemma_ends_add_up(p: DensePolynomial, alpha: EF)
    ensures
        run::value_after(p, alpha, EF::zero_spec()) + run::value_after(p, alpha, EF::one_spec())
            == run::weighted_ends(p, alpha),
{
    poly::lemma_at_canonical(p.coeffs@, EF::zero_spec());
    poly::lemma_at_canonical(p.coeffs@, EF::one_spec());
    lemma_step_ends(alpha, poly::poly_at(p.coeffs@, EF::zero_spec()));
    lemma_step_ends(alpha, poly::poly_at(p.coeffs@, EF::one_spec()));
}

/// Mixing by `eta` is additive.
pub proof fn lemma_mix_add(eta: EF, a0: EF, b0: EF, c0: EF, a1: EF, b1: EF, c1: EF)
    ensures
        (a0 + eta * b0 + eta * eta * c0) + (a1 + eta * b1 + eta * eta * c1) == (a0 + a1) + eta * (b0 + b1) + eta * eta
            * (c0 + c1),
{
    let square = eta * eta;
    ext::lemma_add_exchange(a0 + eta * b0, square * c0, a1 + eta * b1, square * c1);
    ext::lemma_add_exchange(a0, eta * b0, a1, eta * b1);
    ext::lemma_mul_distrib_right(eta, b0, b1);
    ext::lemma_mul_distrib_right(square, c0, c1);
}

/// A round whose polynomials take the values that its sums claim takes them as one: what the prover
/// sends adds up to the mixed sum.
pub proof fn law_consistent_round_adds_up(round: SessionRound, alpha: EF, eta: EF)
    requires
        round.consistent(alpha),
    ensures
        round.combined_at(alpha, eta, EF::zero_spec()) + round.combined_at(alpha, eta, EF::one_spec())
            == round.combined_sum(eta),
{
    let half = rounds::half();
    let z = EF::zero_spec();
    let one = EF::one_spec();
    lemma_ends_add_up(round.air, alpha);
    lemma_ends_add_up(round.cell_link, half);
    lemma_ends_add_up(round.linear, half);
    lemma_mix_add(
        eta,
        run::value_after(round.air, alpha, z),
        run::value_after(round.cell_link, half, z),
        run::value_after(round.linear, half, z),
        run::value_after(round.air, alpha, one),
        run::value_after(round.cell_link, half, one),
        run::value_after(round.linear, half, one),
    );
}

/// The sum that round `i` has to claim: zero at first, then what the round before leaves.
pub open spec fn target(polys: Seq<DensePolynomial>, point: Seq<EF>, i: int) -> EF {
    if i <= 0 {
        EF::zero_spec()
    } else {
        poly::poly_at(polys[i - 1].coeffs@, point[i - 1])
    }
}

/// Whether a polynomial is one of a round that claims the sum.
pub open spec fn round_holds(p: DensePolynomial, sum: EF) -> bool {
    &&& p.coeffs@.len() <= BATCH_DEGREE + 1
    &&& poly::poly_at(p.coeffs@, EF::zero_spec()) + poly::poly_at(p.coeffs@, EF::one_spec()) == sum
}

/// Whether all rounds claim the sums that they have to.
pub open spec fn rounds_hold(polys: Seq<DensePolynomial>, point: Seq<EF>) -> bool {
    forall|i: int| 0 <= i < polys.len() ==> round_holds(#[trigger] polys[i], target(polys, point, i))
}

/// Decides on one round.
pub fn check_round(p: &DensePolynomial, sum: EF) -> (r: Result<(), ProofError>)
    ensures
        r is Ok <==> round_holds(*p, sum),
        r matches Err(e) ==> e == ProofError::InvalidProof,
{
    if p.coeffs.len() <= BATCH_DEGREE + 1 && p.evaluate(EF::zero()).add(p.evaluate(EF::one())) == sum {
        Ok(())
    } else {
        Err(ProofError::InvalidProof)
    }
}

/// Decides on the rounds of a sumcheck of zero, and gives the value that is left.
pub fn check_rounds(polys: &Vec<DensePolynomial>, point: &Vec<EF>) -> (r: Result<EF, ProofError>)
    requires
        polys@.len() == point@.len(),
    ensures
        r is Ok <==> rounds_hold(polys@, point@),
        r matches Ok(value) ==> value == target(polys@, point@, polys@.len() as int),
        r matches Err(e) ==> e == ProofError::InvalidProof,
{
    let mut sum = EF::zero();
    let mut i: usize = 0;
    while i < polys.len()
        invariant
            i <= polys@.len(),
            polys@.len() == point@.len(),
            sum == target(polys@, point@, i as int),
            forall|j: int| 0 <= j < i ==> round_holds(#[trigger] polys@[j], target(polys@, point@, j)),
        decreases polys@.len() - i,
    {
        match check_round(&polys[i], sum) {
            Ok(()) => {},
            Err(e) => {
                assert(!round_holds(polys@[i as int], target(polys@, point@, i as int)));
                return Err(e);
            },
        }
        sum = polys[i].evaluate(point[i]);
        i = i + 1;
    }
    Ok(sum)
}

/// Whether polynomials are those that a run sends.
pub open spec fn batches(run: SessionRun, eq_point: Seq<EF>, eta: EF, polys: Seq<DensePolynomial>) -> bool {
    &&& polys.len() == run.rounds@.len()
    &&& forall|i: int|
        #![trigger polys[i]]
        0 <= i < polys.len() ==> {
            &&& polys[i].coeffs@.len() == poly::larger(
                poly::larger(run.rounds@[i].air.coeffs@.len(), run.rounds@[i].cell_link.coeffs@.len()),
                run.rounds@[i].linear.coeffs@.len(),
            ) + 1
            &&& forall|x: EF| #[trigger]
                poly::poly_at(polys[i].coeffs@, x) == run.rounds@[i].combined_at(
                    eq_point[eq_point.len() - 1 - i],
                    eta,
                    x,
                )
        }
}

impl SessionRun {
    /// The polynomials that the prover sends.
    pub fn batch(&self, eq_point: &Vec<EF>, eta: EF) -> (r: Vec<DensePolynomial>)
        requires
            self.rounds@.len() == eq_point@.len(),
        ensures
            batches(*self, eq_point@, eta, r@),
    {
        let n: usize = eq_point.len();
        let mut out: Vec<DensePolynomial> = Vec::new();
        let mut i: usize = 0;
        while i < n
            invariant
                i <= n,
                n == eq_point@.len(),
                n == self.rounds@.len(),
                out@.len() == i,
                forall|j: int|
                    #![trigger out@[j]]
                    0 <= j < i ==> {
                        &&& out@[j].coeffs@.len() == poly::larger(
                            poly::larger(self.rounds@[j].air.coeffs@.len(), self.rounds@[j].cell_link.coeffs@.len()),
                            self.rounds@[j].linear.coeffs@.len(),
                        ) + 1
                        &&& forall|x: EF| #[trigger]
                            poly::poly_at(out@[j].coeffs@, x) == self.rounds@[j].combined_at(
                                eq_point@[n - 1 - j],
                                eta,
                                x,
                            )
                    },
            decreases n - i,
        {
            let p = self.rounds[i].combined(eq_point[n - 1 - i], eta);
            out.push(p);
            i = i + 1;
        }
        out
    }
}

/// What a run over true sums sends is accepted: every round claims the sum that it has to, and the
/// value that is left is the mixed sum that is left.
pub proof fn law_true_run_is_accepted(
    k: PoseidonConstants,
    start: Sessions,
    point: Seq<EF>,
    run: SessionRun,
    eta: EF,
    polys: Seq<DensePolynomial>,
)
    requires
        point.len() > 0,
        start.air.eq_factor@.len() == point.len(),
        run.runs(k, start, point),
        run::truthful(k, start),
        start.air.sum == EF::zero_spec(),
        start.cell_link.sum == EF::zero_spec(),
        start.linear.sum == EF::zero_spec(),
        batches(run, start.air.eq_factor@, eta, polys),
    ensures
        rounds_hold(polys, point),
        target(polys, point, point.len() as int) == run.value(eta),
{
    let n: int = point.len() as int;
    let z = EF::zero_spec();
    let states = choose|states: Seq<Sessions>| #[trigger] run::traversed(k, start, point, run.rounds@, states);
    assert forall|i: int| 0 <= i < n implies round_holds(#[trigger] polys[i], target(polys, point, i)) by {
        let round = run.rounds@[i];
        let alpha = run::alpha_of(start, i);
        assert(run::is_round(k, states[i], round));
        assert(round.consistent(alpha));
        law_consistent_round_adds_up(round, alpha, eta);
        if i == 0 {
            ext::lemma_constants_canonical();
            ext::lemma_mul_zero(eta);
            ext::lemma_mul_zero(eta * eta);
            ext::lemma_add_zero(z);
        } else {
            assert(run.rounds@[i - 1].leaves(
                run::alpha_of(start, i - 1),
                point[i - 1],
                round.air_sum,
                round.cell_link_sum,
                round.linear_sum,
            ));
            assert(poly::poly_at(polys[i - 1].coeffs@, point[i - 1]) == run.rounds@[i - 1].combined_at(
                run::alpha_of(start, i - 1),
                eta,
                point[i - 1],
            ));
        }
    }
    assert(poly::poly_at(polys[n - 1].coeffs@, point[n - 1]) == run.rounds@[n - 1].combined_at(
        run::alpha_of(start, n - 1),
        eta,
        point[n - 1],
    ));
}

} // verus!
