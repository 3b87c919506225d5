//! The rounds of the sumcheck, from opened sessions to the values that are left.
use super::air;
use super::air_session;
use super::air_session::DedicatedHashAirSumcheckSession;
use super::final_check;
use super::linear_session;
use super::order;
use super::prover::Sessions;
use super::rounds;
use super::sparse;
use super::sparse::SparseCoeff;
use crate::ext;
use crate::ext::EF;
use crate::mle;
use crate::poly;
use crate::poly::DensePolynomial;
use crate::poseidon::PoseidonConstants;
use crate::sums;
use vstd::arithmetic::power2::*;
use vstd::prelude::*;

verus! {

/// One column of the rows of the hash session, in natural order.
pub open spec fn hash_column(s: DedicatedHashAirSumcheckSession, c: int) -> spec_fn(int) -> EF {
    |j: int| s.row(j)[c]
}

/// One column of values.
pub open spec fn dense_column(columns: Seq<Vec<EF>>, c: int) -> spec_fn(int) -> EF {
    |j: int| columns[c]@[j]
}

/// One column of sparse coefficients.
pub open spec fn sparse_column(columns: Seq<Vec<SparseCoeff>>, c: int) -> spec_fn(int) -> EF {
    |j: int| sparse::value_at(columns[c]@, j)
}

/// Setting the lowest variable of values to the last coordinate of a point leaves the value at the
/// point.
proof fn lemma_fold_column(v: spec_fn(int) -> EF, w: spec_fn(int) -> EF, point: Seq<EF>)
    requires
        point.len() > 0,
        point.last().canonical(),
        forall|i: int| 0 <= i < pow2(point.len()) ==> (#[trigger] v(i)).canonical(),
        forall|j: int|
            0 <= j < pow2((point.len() - 1) as nat) ==> #[trigger] w(j) == rounds::line(
                v(2 * j),
                v(2 * j + 1),
                point.last(),
            ),
    ensures
        mle::mle_at(v, point) == mle::mle_at(w, point.drop_last()),
{
    let n: nat = pow2(point.len());
    let h: nat = pow2((point.len() - 1) as nat);
    lemma_pow2_unfold(point.len());
    let z = EF::zero_spec();
    let u = |i: int|
        if 0 <= i < n {
            v(i)
        } else {
            z
        };
    ext::lemma_constants_canonical();
    assert forall|i: int| (#[trigger] u(i)).canonical() by {
        if 0 <= i < n {
            assert(v(i).canonical());
        }
    }
    let a = |i: int| v(i) * mle::eq_weight(point, i);
    let b = |i: int| u(i) * mle::eq_weight(point, i);
    assert forall|i: int| 0 <= i < n implies #[trigger] a(i) == b(i) by {
        assert(u(i) == v(i));
    }
    sums::lemma_sum_ext(n, a, b);
    mle::lemma_mle_fold(u, point);
    let f = mle::folded(u, point.last());
    let rest = point.drop_last();
    let a = |i: int| f(i) * mle::eq_weight(rest, i);
    let b = |i: int| w(i) * mle::eq_weight(rest, i);
    assert forall|i: int| 0 <= i < h implies #[trigger] a(i) == b(i) by {
        assert(u(2 * i) == v(2 * i) && u(2 * i + 1) == v(2 * i + 1));
        assert(w(i) == rounds::line(v(2 * i), v(2 * i + 1), point.last()));
    }
    sums::lemma_sum_ext(h, a, b);
}

/// With no variable left, the value is the only one there is.
proof fn lemma_no_variable(v: spec_fn(int) -> EF)
    requires
        v(0).canonical(),
    ensures
        mle::mle_at(v, Seq::<EF>::empty()) == v(0),
{
    lemma2_to64();
    let point = Seq::<EF>::empty();
    let f = |i: int| v(i) * mle::eq_weight(point, i);
    assert(sums::sum(1, f) == sums::sum(0, f) + f(0));
    ext::lemma_mul_one(v(0));
    ext::lemma_add_zero(v(0));
    ext::lemma_add_comm(EF::zero_spec(), v(0));
}

/// Whether sessions can be run over `n` rounds.
pub open spec fn ready(k: PoseidonConstants, s: Sessions, n: nat) -> bool {
    &&& s.air.wf(k)
    &&& s.air.initial_n_vars == n
    &&& s.air.rounds_done == 0
    &&& s.air.missing_mul_factor == EF::one_spec()
    &&& s.cell_link.wf()
    &&& s.cell_link.current_n_vars == n
    &&& s.cell_link.values@.len() > 0
    &&& s.cell_link.missing_mul_factor == EF::one_spec()
    &&& s.linear.wf()
    &&& s.linear.current_n_vars == n
    &&& s.linear.values@.len() > 0
    &&& s.linear.missing_mul_factor == EF::one_spec()
}

/// Whether the sums that sessions claim are those that they are about.
pub open spec fn truthful(k: PoseidonConstants, s: Sessions) -> bool {
    &&& s.air.sum == s.air.claim(k)
    &&& s.cell_link.sum == s.cell_link.claim()
    &&& s.linear.sum == s.linear.claim()
}

/// Whether the sessions `s` are what `start` becomes after `i` rounds: the value of every column at
/// the point of all challenges is its value, as it is now, at the point of those that are left.
pub open spec fn follows(k: PoseidonConstants, start: Sessions, s: Sessions, challenges: Seq<EF>, i: nat) -> bool {
    let n = challenges.len();
    let all = challenges.reverse();
    let rest = challenges.skip(i as int).reverse();
    &&& s.air.wf(k)
    &&& s.air.initial_n_vars == n
    &&& s.air.rounds_done == i
    &&& s.air.alphas@ == start.air.alphas@
    &&& s.air.eq_factor@ == start.air.eq_factor@.take(n - i)
    &&& s.air.missing_mul_factor * mle::eq_poly(s.air.eq_factor@, rest) == mle::eq_poly(start.air.eq_factor@, all)
    &&& forall|c: int|
        0 <= c < 92 ==> #[trigger] mle::mle_at(hash_column(s.air, c), rest) == mle::mle_at(
            hash_column(start.air, c),
            all,
        )
    &&& s.cell_link.wf()
    &&& s.cell_link.current_n_vars == n - i
    &&& s.cell_link.values@.len() == start.cell_link.values@.len()
    &&& s.cell_link.missing_mul_factor == rounds::half().pow(i)
    &&& forall|c: int|
        0 <= c < s.cell_link.values@.len() ==> #[trigger] mle::mle_at(dense_column(s.cell_link.values@, c), rest)
            == mle::mle_at(dense_column(start.cell_link.values@, c), all)
    &&& forall|c: int|
        0 <= c < s.cell_link.values@.len() ==> #[trigger] mle::mle_at(
            dense_column(s.cell_link.coefficients@, c),
            rest,
        ) == mle::mle_at(dense_column(start.cell_link.coefficients@, c), all)
    &&& s.linear.wf()
    &&& s.linear.current_n_vars == n - i
    &&& s.linear.values@.len() == start.linear.values@.len()
    &&& s.linear.missing_mul_factor == rounds::half().pow(i)
    &&& forall|c: int|
        0 <= c < s.linear.values@.len() ==> #[trigger] mle::mle_at(dense_column(s.linear.values@, c), rest)
            == mle::mle_at(dense_column(start.linear.values@, c), all)
    &&& forall|c: int|
        0 <= c < s.linear.values@.len() ==> #[trigger] mle::mle_at(sparse_column(s.linear.coefficients@, c), rest)
            == mle::mle_at(sparse_column(start.linear.coefficients@, c), all)
}

/// One round: the sums that the sessions claim before it, and their polynomials.
#[derive(Debug)]
pub struct SessionRound {
    pub air_sum: EF,
    pub cell_link_sum: EF,
    pub linear_sum: EF,
    pub air: DensePolynomial,
    pub cell_link: DensePolynomial,
    pub linear: DensePolynomial,
}

/// The rounds of the sumcheck and what is left after them.
#[derive(Debug)]
pub struct SessionRun {
    pub rounds: Vec<SessionRound>,
    pub air_sum: EF,
    pub cell_link_sum: EF,
    pub linear_sum: EF,
    /// The values of the columns at the point of the challenges.
    pub col_evals: Vec<EF>,
}

/// The values of a polynomial at zero and one, weighted by the equality polynomial.
pub open spec fn weighted_ends(p: DensePolynomial, alpha: EF) -> EF {
    (EF::one_spec() - alpha) * poly::poly_at(p.coeffs@, EF::zero_spec()) + alpha * poly::poly_at(
        p.coeffs@,
        EF::one_spec(),
    )
}

/// The values of a polynomial at zero and one, weighted by the equality polynomial.
fn weighted_ends_of(p: &DensePolynomial, alpha: EF) -> (r: EF)
    ensures
        r == weighted_ends(*p, alpha),
{
    EF::one().sub(alpha).mul(p.evaluate(EF::zero())).add(alpha.mul(p.evaluate(EF::one())))
}

/// What is left of a polynomial at a challenge.
pub open spec fn value_after(p: DensePolynomial, alpha: EF, challenge: EF) -> EF {
    poly::poly_at(p.coeffs@, challenge) * rounds::eq_step(alpha, challenge)
}

impl SessionRound {
    /// Whether the polynomials of the round take the values that the sums claim.
    pub open spec fn consistent(self, alpha: EF) -> bool {
        &&& weighted_ends(self.air, alpha) == self.air_sum
        &&& weighted_ends(self.cell_link, rounds::half()) == self.cell_link_sum
        &&& weighted_ends(self.linear, rounds::half()) == self.linear_sum
    }

    /// Whether the polynomials of the round take the values that the sums claim.
    pub fn check(&self, alpha: EF) -> (r: bool)
        ensures
            r == self.consistent(alpha),
    {
        let half = rounds::virtual_linear_eq_alpha();
        weighted_ends_of(&self.air, alpha) == self.air_sum && weighted_ends_of(&self.cell_link, half)
            == self.cell_link_sum && weighted_ends_of(&self.linear, half) == self.linear_sum
    }

    /// Whether the given sums are what is left of the round at a challenge.
    pub open spec fn leaves(self, alpha: EF, challenge: EF, air: EF, cell_link: EF, linear: EF) -> bool {
        &&& air == value_after(self.air, alpha, challenge)
        &&& cell_link == value_after(self.cell_link, rounds::half(), challenge)
        &&& linear == value_after(self.linear, rounds::half(), challenge)
    }
}

/// The point of the equality polynomial in round `i`.
pub open spec fn alpha_of(start: Sessions, i: int) -> EF {
    start.air.eq_factor@[start.air.eq_factor@.len() - 1 - i]
}

/// Whether each round leaves the sums that the next one claims.
pub open spec fn chained(start: Sessions, challenges: Seq<EF>, rounds: Seq<SessionRound>) -> bool {
    forall|i: int|
        0 <= i < rounds.len() - 1 ==> (#[trigger] rounds[i]).leaves(
            alpha_of(start, i),
            challenges[i],
            rounds[i + 1].air_sum,
            rounds[i + 1].cell_link_sum,
            rounds[i + 1].linear_sum,
        )
}

/// Whether the sessions can go on, with every value held canonically.
pub open spec fn whole(k: PoseidonConstants, s: Sessions) -> bool {
    &&& s.air.wf(k)
    &&& all_canonical(s.air.multilinears@)
    &&& all_canonical(s.cell_link.values@)
    &&& all_canonical(s.cell_link.coefficients@)
    &&& all_canonical(s.linear.values@)
    &&& s.air.missing_mul_factor.canonical()
}

/// Whether the rounds are those of the sessions `states` but the last, each of which becomes the next
/// at a challenge.
pub open spec fn walked(
    k: PoseidonConstants,
    start: Sessions,
    challenges: Seq<EF>,
    rounds: Seq<SessionRound>,
    states: Seq<Sessions>,
) -> bool {
    &&& states.len() == challenges.len() + 1
    &&& states[0] == start
    &&& forall|i: int|
        0 <= i < challenges.len() ==> {
            &&& whole(k, #[trigger] states[i])
            &&& challenges[i].canonical()
            &&& is_round(k, states[i], rounds[i])
            &&& stepped(states[i], states[i + 1], challenges[i])
        }
}

/// Whether the rounds are those of the sessions `states`.
pub open spec fn traversed(
    k: PoseidonConstants,
    start: Sessions,
    challenges: Seq<EF>,
    rounds: Seq<SessionRound>,
    states: Seq<Sessions>,
) -> bool {
    &&& walked(k, start, challenges, rounds, states)
    &&& whole(k, states.last())
}

impl SessionRun {
    /// The sum of all claims that are left, mixed by `eta`.
    pub open spec fn value(self, eta: EF) -> EF {
        self.air_sum + eta * self.cell_link_sum + eta * eta * self.linear_sum
    }

    /// Whether this is a run of the sessions over the challenges: every round is the one of what the
    /// sessions have become, it leaves the sums of the next and the last one those that are left,
    /// the values that are left are those of the columns at the point of the challenges, and with
    /// true sums at the start every round is consistent and the sums that are left are true.
    pub open spec fn runs(self, k: PoseidonConstants, start: Sessions, challenges: Seq<EF>) -> bool {
        let n = challenges.len();
        let all = challenges.reverse();
        let half = rounds::half().pow(n);
        &&& self.rounds@.len() == n
        &&& n > 0 ==> {
            &&& self.rounds@[0].air_sum == start.air.sum
            &&& self.rounds@[0].cell_link_sum == start.cell_link.sum
            &&& self.rounds@[0].linear_sum == start.linear.sum
            &&& self.rounds@[n - 1].leaves(
                alpha_of(start, n - 1),
                challenges[n - 1],
                self.air_sum,
                self.cell_link_sum,
                self.linear_sum,
            )
        }
        &&& chained(start, challenges, self.rounds@)
        &&& exists|states: Seq<Sessions>| #[trigger] traversed(k, start, challenges, self.rounds@, states)
        &&& self.col_evals@.len() == 92
        &&& forall|c: int|
            0 <= c < 92 ==> #[trigger] self.col_evals@[c] == mle::mle_at(hash_column(start.air, c), all)
        &&& truthful(k, start) ==> {
            &&& forall|i: int| 0 <= i < n ==> (#[trigger] self.rounds@[i]).consistent(alpha_of(start, i))
            &&& self.air_sum == mle::eq_poly(start.air.eq_factor@, all) * air::combined_constraints(
                k,
                start.air.alphas@,
                self.col_evals@,
            )
            &&& self.cell_link_sum == half * sums::sum(
                start.cell_link.values@.len(),
                |c: int|
                    mle::mle_at(dense_column(start.cell_link.values@, c), all) * mle::mle_at(
                        dense_column(start.cell_link.coefficients@, c),
                        all,
                    ),
            )
            &&& self.linear_sum == half * sums::sum(
                start.linear.values@.len(),
                |c: int|
                    mle::mle_at(dense_column(start.linear.values@, c), all) * mle::mle_at(
                        sparse_column(start.linear.coefficients@, c),
                        all,
                    ),
            )
        }
    }
}

/// The challenges that are left, the next of them last.
proof fn lemma_rest(challenges: Seq<EF>, i: int)
    requires
        0 <= i < challenges.len(),
    ensures
        challenges.skip(i).reverse().len() == challenges.len() - i,
        challenges.skip(i).reverse().last() == challenges[i],
        challenges.skip(i).reverse().drop_last() == challenges.skip(i + 1).reverse(),
        challenges.skip(i + 1).reverse().push(challenges[i]) == challenges.skip(i).reverse(),
{
    let rest = challenges.skip(i).reverse();
    let next = challenges.skip(i + 1).reverse();
    assert(rest.drop_last() =~= next);
    assert(next.push(challenges[i]) =~= rest);
}

/// Whether all values of columns are canonical.
pub open spec fn all_canonical(columns: Seq<Vec<EF>>) -> bool {
    forall|s: int, i: int|
        0 <= s < columns.len() && 0 <= i < columns[s]@.len() ==> (#[trigger] columns[s]@[i]).canonical()
}

/// A round keeps the values of the columns of the hash session.
proof fn lemma_hash_round(
    before: DedicatedHashAirSumcheckSession,
    after: DedicatedHashAirSumcheckSession,
    point: Seq<EF>,
    c: int,
)
    requires
        before.shaped(),
        before.rounds_done < before.initial_n_vars,
        point.len() == before.left(),
        point.last().canonical(),
        all_canonical(before.multilinears@),
        air_session::after_challenge(before, after, point.last()),
        0 <= c < 92,
    ensures
        mle::mle_at(hash_column(before, c), point) == mle::mle_at(hash_column(after, c), point.drop_last()),
{
    let v = hash_column(before, c);
    let w = hash_column(after, c);
    let n: nat = pow2(before.left());
    let rest: nat = (before.left() - before.digits()) as nat;
    lemma_pow2_adds(rest, before.digits());
    assert forall|j: int| 0 <= j < n implies (#[trigger] v(j)).canonical() by {
        order::lemma_natural_bound(before.digits(), pow2(rest), j);
        assert(before.multilinears@[c]@[order::natural(before.digits(), j)].canonical());
    }
    lemma_pow2_unfold(before.left());
    assert forall|j: int| 0 <= j < pow2((point.len() - 1) as nat) implies #[trigger] w(j) == rounds::line(
        v(2 * j),
        v(2 * j + 1),
        point.last(),
    ) by {
        assert(after.row(j) == before.pair_row(j, point.last()));
    }
    lemma_fold_column(v, w, point);
}

/// A round keeps the values of a column that is folded.
proof fn lemma_dense_round(before: Seq<Vec<EF>>, after: Seq<Vec<EF>>, point: Seq<EF>, c: int)
    requires
        point.len() > 0,
        point.last().canonical(),
        0 <= c < before.len(),
        before[c]@.len() == pow2(point.len()),
        all_canonical(before),
        forall|j: int|
            0 <= j < pow2((point.len() - 1) as nat) ==> #[trigger] after[c]@[j] == rounds::line(
                before[c]@[2 * j],
                before[c]@[2 * j + 1],
                point.last(),
            ),
    ensures
        mle::mle_at(dense_column(before, c), point) == mle::mle_at(dense_column(after, c), point.drop_last()),
{
    let v = dense_column(before, c);
    let w = dense_column(after, c);
    assert forall|j: int| 0 <= j < pow2(point.len()) implies (#[trigger] v(j)).canonical() by {
        assert(before[c]@[j].canonical());
    }
    assert forall|j: int| 0 <= j < pow2((point.len() - 1) as nat) implies #[trigger] w(j) == rounds::line(
        v(2 * j),
        v(2 * j + 1),
        point.last(),
    ) by {
        assert(after[c]@[j] == w(j));
    }
    lemma_fold_column(v, w, point);
}

/// A round keeps the values of a sparse column that is folded.
proof fn lemma_sparse_round(before: Seq<Vec<SparseCoeff>>, after: Seq<Vec<SparseCoeff>>, point: Seq<EF>, c: int)
    requires
        point.len() > 0,
        point.last().canonical(),
        forall|j: int| #[trigger]
            sparse::value_at(after[c]@, j) == sparse::folded_value(before[c]@, point.last(), j),
    ensures
        mle::mle_at(sparse_column(before, c), point) == mle::mle_at(sparse_column(after, c), point.drop_last()),
{
    let v = sparse_column(before, c);
    let w = sparse_column(after, c);
    assert forall|j: int| 0 <= j < pow2(point.len()) implies (#[trigger] v(j)).canonical() by {
        let column = before[c]@;
        let f = |i: int|
            if column[i].row == j {
                column[i].coeff
            } else {
                EF::zero_spec()
            };
        sums::lemma_sum_canonical(column.len(), f);
        assert(v(j) == sums::sum(column.len(), f));
    }
    assert forall|j: int| 0 <= j < pow2((point.len() - 1) as nat) implies #[trigger] w(j) == rounds::line(
        v(2 * j),
        v(2 * j + 1),
        point.last(),
    ) by {
        assert(sparse::value_at(after[c]@, j) == w(j));
    }
    lemma_fold_column(v, w, point);
}

/// With one half, the weighted ends of a polynomial are half their sum.
pub proof fn lemma_half_ends(p: DensePolynomial)
    ensures
        weighted_ends(p, rounds::half()) == rounds::half() * (poly::poly_at(p.coeffs@, EF::zero_spec())
            + poly::poly_at(p.coeffs@, EF::one_spec())),
{
    rounds::lemma_half();
    ext::lemma_mul_distrib_right(
        rounds::half(),
        poly::poly_at(p.coeffs@, EF::zero_spec()),
        poly::poly_at(p.coeffs@, EF::one_spec()),
    );
}

/// Sessions that were just opened have gone through no round.
pub proof fn lemma_start(k: PoseidonConstants, s: Sessions, challenges: Seq<EF>)
    requires
        ready(k, s, challenges.len()),
    ensures
        follows(k, s, s, challenges, 0),
{
    assert(challenges.skip(0) =~= challenges);
    assert(s.air.eq_factor@.take(challenges.len() as int) =~= s.air.eq_factor@);
    mle::lemma_eq_poly_canonical(s.air.eq_factor@, challenges.reverse());
    ext::lemma_mul_one(mle::eq_poly(s.air.eq_factor@, challenges.reverse()));
}

/// One round keeps what [`follows`] says.
pub proof fn lemma_round(
    k: PoseidonConstants,
    start: Sessions,
    before: Sessions,
    after: Sessions,
    challenges: Seq<EF>,
    i: nat,
)
    requires
        i < challenges.len(),
        challenges[i as int].canonical(),
        start.air.eq_factor@.len() == challenges.len(),
        follows(k, start, before, challenges, i),
        whole(k, before),
        after.air.wf(k),
        stepped(before, after, challenges[i as int]),
    ensures
        follows(k, start, after, challenges, i + 1),
{
    let n = challenges.len();
    let challenge = challenges[i as int];
    let all = challenges.reverse();
    let point = challenges.skip(i as int).reverse();
    let rest = challenges.skip(i as int + 1).reverse();
    lemma_rest(challenges, i as int);
    rounds::lemma_half_step(challenge);
    final_check::law_equality_factor_is_kept(before.air, after.air, challenge, rest);
    assert(start.air.eq_factor@.take(n - i).drop_last() =~= start.air.eq_factor@.take(n - i - 1));
    assert forall|c: int| 0 <= c < 92 implies #[trigger] mle::mle_at(hash_column(after.air, c), rest)
        == mle::mle_at(hash_column(start.air, c), all) by {
        lemma_hash_round(before.air, after.air, point, c);
        assert(mle::mle_at(hash_column(before.air, c), point) == mle::mle_at(hash_column(start.air, c), all));
    }
    let (v, w) = (before.cell_link.values@, after.cell_link.values@);
    let (d, e) = (before.cell_link.coefficients@, after.cell_link.coefficients@);
    assert forall|c: int| 0 <= c < w.len() implies #[trigger] mle::mle_at(dense_column(w, c), rest)
        == mle::mle_at(dense_column(start.cell_link.values@, c), all) by {
        lemma_dense_round(v, w, point, c);
        assert(mle::mle_at(dense_column(v, c), point) == mle::mle_at(
            dense_column(start.cell_link.values@, c),
            all,
        ));
    }
    assert forall|c: int| 0 <= c < w.len() implies #[trigger] mle::mle_at(dense_column(e, c), rest)
        == mle::mle_at(dense_column(start.cell_link.coefficients@, c), all) by {
        lemma_dense_round(d, e, point, c);
        assert(mle::mle_at(dense_column(d, c), point) == mle::mle_at(
            dense_column(start.cell_link.coefficients@, c),
            all,
        ));
    }
    let (v, w) = (before.linear.values@, after.linear.values@);
    let (d, e) = (before.linear.coefficients@, after.linear.coefficients@);
    assert forall|c: int| 0 <= c < w.len() implies #[trigger] mle::mle_at(dense_column(w, c), rest)
        == mle::mle_at(dense_column(start.linear.values@, c), all) by {
        lemma_dense_round(v, w, point, c);
        assert(mle::mle_at(dense_column(v, c), point) == mle::mle_at(dense_column(start.linear.values@, c), all));
    }
    assert forall|c: int| 0 <= c < w.len() implies #[trigger] mle::mle_at(sparse_column(e, c), rest)
        == mle::mle_at(sparse_column(start.linear.coefficients@, c), all) by {
        assert forall|j: int| #[trigger] sparse::value_at(e[c]@, j) == sparse::folded_value(d[c]@, challenge, j) by {
        }
        lemma_sparse_round(d, e, point, c);
        assert(mle::mle_at(sparse_column(d, c), point) == mle::mle_at(
            sparse_column(start.linear.coefficients@, c),
            all,
        ));
    }
}

/// What is left of sessions after the last round.
pub proof fn lemma_end(k: PoseidonConstants, start: Sessions, s: Sessions, challenges: Seq<EF>)
    requires
        start.air.eq_factor@.len() == challenges.len(),
        follows(k, start, s, challenges, challenges.len()),
        whole(k, s),
    ensures
        forall|c: int|
            0 <= c < 92 ==> #[trigger] s.air.row(0)[c] == mle::mle_at(
                hash_column(start.air, c),
                challenges.reverse(),
            ),
        ({
            let all = challenges.reverse();
            let half = rounds::half().pow(challenges.len());
            &&& s.air.claim(k) == mle::eq_poly(start.air.eq_factor@, all) * air::combined_constraints(
                k,
                start.air.alphas@,
                s.air.row(0),
            )
            &&& s.cell_link.claim() == half * sums::sum(
                start.cell_link.values@.len(),
                |c: int|
                    mle::mle_at(dense_column(start.cell_link.values@, c), all) * mle::mle_at(
                        dense_column(start.cell_link.coefficients@, c),
                        all,
                    ),
            )
            &&& s.linear.claim() == half * sums::sum(
                start.linear.values@.len(),
                |c: int|
                    mle::mle_at(dense_column(start.linear.values@, c), all) * mle::mle_at(
                        sparse_column(start.linear.coefficients@, c),
                        all,
                    ),
            )
        }),
{
    let n = challenges.len();
    let all = challenges.reverse();
    let none = Seq::<EF>::empty();
    assert(challenges.skip(n as int).reverse() =~= none);
    lemma2_to64();
    assert forall|c: int| 0 <= c < 92 implies #[trigger] s.air.row(0)[c] == mle::mle_at(
        hash_column(start.air, c),
        all,
    ) by {
        let v = hash_column(s.air, c);
        order::lemma_natural_zero(0);
        assert(s.air.multilinears@[c]@.len() == 1);
        assert(s.air.multilinears@[c]@[0].canonical());
        assert(v(0) == s.air.row(0)[c]);
        lemma_no_variable(v);
        assert(mle::mle_at(v, none) == mle::mle_at(hash_column(start.air, c), all));
    }
    final_check::law_last_hash_claim(s.air, k);
    let factor = s.air.missing_mul_factor;
    assert(mle::eq_poly(s.air.eq_factor@, none) == EF::one_spec());
    ext::lemma_mul_one(factor);
    ext::lemma_mul_comm(air::combined_constraints(k, s.air.alphas@, s.air.row(0)), factor);
    final_check::law_last_linear_claims(s.cell_link, s.linear);
    let v = linear_session::column_values(s.cell_link.values@);
    let d = linear_session::column_values(s.cell_link.coefficients@);
    let a = |c: int| v(c, 0) * d(c, 0);
    let b = |c: int|
        mle::mle_at(dense_column(start.cell_link.values@, c), all) * mle::mle_at(
            dense_column(start.cell_link.coefficients@, c),
            all,
        );
    assert forall|c: int| 0 <= c < s.cell_link.values@.len() implies #[trigger] a(c) == b(c) by {
        assert(s.cell_link.values@[c]@[0].canonical());
        assert(s.cell_link.coefficients@[c]@[0].canonical());
        lemma_no_variable(dense_column(s.cell_link.values@, c));
        lemma_no_variable(dense_column(s.cell_link.coefficients@, c));
        assert(mle::mle_at(dense_column(s.cell_link.values@, c), none) == mle::mle_at(
            dense_column(start.cell_link.values@, c),
            all,
        ));
        assert(mle::mle_at(dense_column(s.cell_link.coefficients@, c), none) == mle::mle_at(
            dense_column(start.cell_link.coefficients@, c),
            all,
        ));
    }
    sums::lemma_sum_ext(s.cell_link.values@.len(), a, b);
    let v = linear_session::column_values(s.linear.values@);
    let d = linear_session::sparse_values(s.linear.coefficients@);
    let a = |c: int| v(c, 0) * d(c, 0);
    let b = |c: int|
        mle::mle_at(dense_column(start.linear.values@, c), all) * mle::mle_at(
            sparse_column(start.linear.coefficients@, c),
            all,
        );
    assert forall|c: int| 0 <= c < s.linear.values@.len() implies #[trigger] a(c) == b(c) by {
        assert(s.linear.values@[c]@[0].canonical());
        let column = s.linear.coefficients@[c]@;
        sums::lemma_sum_canonical(
            column.len(),
            |i: int|
                if column[i].row == 0 {
                    column[i].coeff
                } else {
                    EF::zero_spec()
                },
        );
        assert(sparse_column(s.linear.coefficients@, c)(0).canonical());
        lemma_no_variable(dense_column(s.linear.values@, c));
        lemma_no_variable(sparse_column(s.linear.coefficients@, c));
        assert(mle::mle_at(dense_column(s.linear.values@, c), none) == mle::mle_at(
            dense_column(start.linear.values@, c),
            all,
        ));
        assert(mle::mle_at(sparse_column(s.linear.coefficients@, c), none) == mle::mle_at(
            sparse_column(start.linear.coefficients@, c),
            all,
        ));
    }
    sums::lemma_sum_ext(s.linear.values@.len(), a, b);
}

/// Whether sessions are what others become when their lowest variable is set to a challenge.
pub open spec fn stepped(before: Sessions, after: Sessions, challenge: EF) -> bool {
    let step = rounds::eq_step(rounds::half(), challenge);
    &&& air_session::after_challenge(before.air, after.air, challenge)
    &&& after.cell_link.wf()
    &&& after.cell_link.initial_n_vars == before.cell_link.initial_n_vars
    &&& after.cell_link.current_n_vars == before.cell_link.current_n_vars - 1
    &&& after.cell_link.missing_mul_factor == before.cell_link.missing_mul_factor * step
    &&& after.cell_link.values@.len() == before.cell_link.values@.len()
    &&& forall|s: int, j: int|
        0 <= s < before.cell_link.values@.len() && 0 <= j < pow2((before.cell_link.current_n_vars - 1) as nat)
            ==> #[trigger] after.cell_link.values@[s]@[j] == rounds::line(
            before.cell_link.values@[s]@[2 * j],
            before.cell_link.values@[s]@[2 * j + 1],
            challenge,
        )
    &&& forall|s: int, j: int|
        0 <= s < before.cell_link.values@.len() && 0 <= j < pow2((before.cell_link.current_n_vars - 1) as nat)
            ==> #[trigger] after.cell_link.coefficients@[s]@[j] == rounds::line(
            before.cell_link.coefficients@[s]@[2 * j],
            before.cell_link.coefficients@[s]@[2 * j + 1],
            challenge,
        )
    &&& after.linear.wf()
    &&& after.linear.initial_n_vars == before.linear.initial_n_vars
    &&& after.linear.current_n_vars == before.linear.current_n_vars - 1
    &&& after.linear.missing_mul_factor == before.linear.missing_mul_factor * step
    &&& after.linear.values@.len() == before.linear.values@.len()
    &&& forall|s: int, j: int|
        0 <= s < before.linear.values@.len() && 0 <= j < pow2((before.linear.current_n_vars - 1) as nat)
            ==> #[trigger] after.linear.values@[s]@[j] == rounds::line(
            before.linear.values@[s]@[2 * j],
            before.linear.values@[s]@[2 * j + 1],
            challenge,
        )
    &&& forall|s: int, j: int|
        0 <= s < before.linear.values@.len() ==> #[trigger] sparse::value_at(after.linear.coefficients@[s]@, j)
            == sparse::folded_value(before.linear.coefficients@[s]@, challenge, j)
}

/// Whether sessions have a variable left.
pub open spec fn live(k: PoseidonConstants, s: Sessions) -> bool {
    &&& s.air.wf(k)
    &&& s.air.rounds_done < s.air.initial_n_vars
    &&& s.cell_link.wf()
    &&& s.cell_link.current_n_vars > 0
    &&& s.cell_link.values@.len() > 0
    &&& s.linear.wf()
    &&& s.linear.current_n_vars > 0
    &&& s.linear.values@.len() > 0
}

/// Whether a round is the next one of the sessions: it claims their sums, its polynomials are those
/// of their rounds, and with true sums it is consistent.
pub open spec fn is_round(k: PoseidonConstants, s: Sessions, round: SessionRound) -> bool {
    let alpha = s.air.eq_factor@.last();
    &&& round.air_sum == s.air.sum
    &&& round.cell_link_sum == s.cell_link.sum
    &&& round.linear_sum == s.linear.sum
    &&& weighted_ends(round.air, alpha) == s.air.sum
    &&& forall|i: int|
        0 <= i < 10 && i != 1 ==> poly::poly_at(round.air.coeffs@, #[trigger] poly::node(i)) == s.air.round_at(
            k,
            poly::node(i),
        )
    &&& round.air.coeffs@.len() == 10
    &&& s.air.sum == s.air.claim(k) ==> forall|x: EF|
        #[trigger] poly::poly_at(round.air.coeffs@, x) == s.air.round_at(k, x)
    &&& round.cell_link.coeffs@.len() == 3
    &&& forall|x: EF| #[trigger] poly::poly_at(round.cell_link.coeffs@, x) == s.cell_link.round_at(x)
    &&& round.linear.coeffs@.len() == 3
    &&& forall|x: EF| #[trigger] poly::poly_at(round.linear.coeffs@, x) == s.linear.round_at(x)
    &&& truthful(k, s) ==> round.consistent(alpha)
}

/// The next round of the sessions, none where the coordinate of the equality polynomial is zero.
pub fn next_round(k: &PoseidonConstants, s: &Sessions) -> (r: Option<SessionRound>)
    requires
        live(*k, *s),
    ensures
        r is Some <==> s.air.eq_factor@.last() != EF::zero_spec(),
        r matches Some(round) ==> is_round(*k, *s, round),
{
    let air = match s.air.compute_bare_round_poly(k) {
        Some(p) => p,
        None => {
            return None;
        },
    };
    let cell_link = s.cell_link.compute_bare_round_poly();
    let linear = s.linear.compute_bare_round_poly();
    proof {
        lemma_half_ends(cell_link);
        lemma_half_ends(linear);
    }
    Some(
        SessionRound {
            air_sum: s.air.sum(),
            cell_link_sum: s.cell_link.sum(),
            linear_sum: s.linear.sum(),
            air,
            cell_link,
            linear,
        },
    )
}

/// Sets the lowest variable of the sessions to the challenge that answers a round. True sums stay
/// true.
pub fn take_challenge(k: &PoseidonConstants, s: &mut Sessions, round: &SessionRound, challenge: EF)
    requires
        live(*k, *old(s)),
        is_round(*k, *old(s), *round),
    ensures
        final(s).air.wf(*k),
        stepped(*old(s), *final(s), challenge),
        round.leaves(
            old(s).air.eq_factor@.last(),
            challenge,
            final(s).air.sum,
            final(s).cell_link.sum,
            final(s).linear.sum,
        ),
        truthful(*k, *old(s)) ==> truthful(*k, *final(s)),
{
    s.air.process_challenge(challenge, &round.air);
    s.cell_link.process_challenge(challenge, &round.cell_link);
    s.linear.process_challenge(challenge, &round.linear);
}

/// What holds after `i` rounds: the sessions follow from those at the start, and what is to be said
/// of a run holds of the rounds so far.
#[verifier::opaque]
spec fn progress(
    k: PoseidonConstants,
    start: Sessions,
    s: Sessions,
    challenges: Seq<EF>,
    done: Seq<SessionRound>,
    states: Seq<Sessions>,
) -> bool {
    let i = done.len();
    let n = challenges.len();
    &&& i <= n
    &&& start.air.eq_factor@.len() == n
    &&& start.cell_link.values@.len() > 0
    &&& start.linear.values@.len() > 0
    &&& follows(k, start, s, challenges, i)
    &&& truthful(k, start) ==> truthful(k, s)
    &&& walked(k, start, challenges.take(i as int), done, states)
    &&& states.last() == s
    &&& chained(start, challenges, done)
    &&& i == 0 ==> s == start
    &&& i > 0 ==> {
        &&& done[0].air_sum == start.air.sum
        &&& done[0].cell_link_sum == start.cell_link.sum
        &&& done[0].linear_sum == start.linear.sum
        &&& done[i - 1].leaves(
            alpha_of(start, i - 1),
            challenges[i - 1],
            s.air.sum,
            s.cell_link.sum,
            s.linear.sum,
        )
    }
    &&& truthful(k, start) ==> forall|j: int| 0 <= j < i ==> (#[trigger] done[j]).consistent(alpha_of(start, j))
}

proof fn lemma_progress_start(k: PoseidonConstants, start: Sessions, challenges: Seq<EF>)
    requires
        ready(k, start, challenges.len()),
    ensures
        progress(k, start, start, challenges, Seq::empty(), seq![start]),
{
    reveal(progress);
    lemma_start(k, start, challenges);
}

/// Sessions with a round to go.
proof fn lemma_progress_live(
    k: PoseidonConstants,
    start: Sessions,
    s: Sessions,
    challenges: Seq<EF>,
    done: Seq<SessionRound>,
    states: Seq<Sessions>,
)
    requires
        progress(k, start, s, challenges, done, states),
        done.len() < challenges.len(),
    ensures
        live(k, s),
        s.air.eq_factor@.last() == alpha_of(start, done.len() as int),
{
    reveal(progress);
}

/// Whether sessions become others by a round and a challenge.
#[verifier::opaque]
spec fn one_step(k: PoseidonConstants, s: Sessions, after: Sessions, round: SessionRound, challenge: EF) -> bool {
    &&& whole(k, s)
    &&& challenge.canonical()
    &&& is_round(k, s, round)
    &&& stepped(s, after, challenge)
}

proof fn lemma_walked_step(
    k: PoseidonConstants,
    start: Sessions,
    challenges: Seq<EF>,
    rounds: Seq<SessionRound>,
    states: Seq<Sessions>,
    j: int,
)
    requires
        walked(k, start, challenges, rounds, states),
        0 <= j < challenges.len(),
    ensures
        one_step(k, states[j], states[j + 1], rounds[j], challenges[j]),
{
    reveal(one_step);
    assert(whole(k, states[j]));
}

proof fn lemma_walk_on(
    k: PoseidonConstants,
    start: Sessions,
    challenges: Seq<EF>,
    done: Seq<SessionRound>,
    states: Seq<Sessions>,
    round: SessionRound,
    after: Sessions,
)
    requires
        done.len() < challenges.len(),
        walked(k, start, challenges.take(done.len() as int), done, states),
        challenges[done.len() as int].canonical(),
        whole(k, states.last()),
        is_round(k, states.last(), round),
        stepped(states.last(), after, challenges[done.len() as int]),
    ensures
        walked(k, start, challenges.take(done.len() as int + 1), done.push(round), states.push(after)),
{
    let i: int = done.len() as int;
    let rounds = done.push(round);
    let visited = states.push(after);
    let more = challenges.take(i + 1);
    assert(one_step(k, states.last(), after, round, challenges[i])) by {
        reveal(one_step);
    }
    assert forall|j: int| 0 <= j < i + 1 implies {
        &&& whole(k, #[trigger] visited[j])
        &&& more[j].canonical()
        &&& is_round(k, visited[j], rounds[j])
        &&& stepped(visited[j], visited[j + 1], more[j])
    } by {
        assert(one_step(k, visited[j], visited[j + 1], rounds[j], more[j])) by {
            if j < i {
                lemma_walked_step(k, start, challenges.take(i), done, states, j);
            }
        }
        reveal(one_step);
    }
}

proof fn lemma_chain_on(
    start: Sessions,
    challenges: Seq<EF>,
    done: Seq<SessionRound>,
    round: SessionRound,
    before: Sessions,
)
    requires
        chained(start, challenges, done),
        round.air_sum == before.air.sum,
        round.cell_link_sum == before.cell_link.sum,
        round.linear_sum == before.linear.sum,
        done.len() > 0 ==> done.last().leaves(
            alpha_of(start, done.len() - 1),
            challenges[done.len() - 1],
            before.air.sum,
            before.cell_link.sum,
            before.linear.sum,
        ),
    ensures
        chained(start, challenges, done.push(round)),
{
    let i: int = done.len() as int;
    let rounds = done.push(round);
    assert forall|j: int| 0 <= j < rounds.len() - 1 implies (#[trigger] rounds[j]).leaves(
        alpha_of(start, j),
        challenges[j],
        rounds[j + 1].air_sum,
        rounds[j + 1].cell_link_sum,
        rounds[j + 1].linear_sum,
    ) by {
        assert(rounds[j] == done[j]);
        if j < i - 1 {
            assert(rounds[j + 1] == done[j + 1]);
        }
    }
}

/// One more round.
proof fn lemma_progress_step(
    k: PoseidonConstants,
    start: Sessions,
    before: Sessions,
    after: Sessions,
    challenges: Seq<EF>,
    done: Seq<SessionRound>,
    states: Seq<Sessions>,
    round: SessionRound,
)
    requires
        progress(k, start, before, challenges, done, states),
        done.len() < challenges.len(),
        challenges[done.len() as int].canonical(),
        whole(k, before),
        is_round(k, before, round),
        after.air.wf(k),
        stepped(before, after, challenges[done.len() as int]),
        round.leaves(
            before.air.eq_factor@.last(),
            challenges[done.len() as int],
            after.air.sum,
            after.cell_link.sum,
            after.linear.sum,
        ),
        truthful(k, before) ==> truthful(k, after),
    ensures
        progress(k, start, after, challenges, done.push(round), states.push(after)),
{
    let i: int = done.len() as int;
    let rounds = done.push(round);
    let visited = states.push(after);
    lemma_progress_live(k, start, before, challenges, done, states);
    assert(follows(k, start, after, challenges, done.len() + 1)) by {
        reveal(progress);
        lemma_round(k, start, before, after, challenges, done.len());
    }
    assert(walked(k, start, challenges.take(i + 1), rounds, visited)) by {
        reveal(progress);
        lemma_walk_on(k, start, challenges, done, states, round, after);
    }
    assert(chained(start, challenges, rounds)) by {
        reveal(progress);
        lemma_chain_on(start, challenges, done, round, before);
    }
    reveal(progress);
    if truthful(k, start) {
        assert forall|j: int| 0 <= j < i + 1 implies (#[trigger] rounds[j]).consistent(alpha_of(start, j)) by {
            if j < i {
                assert(rounds[j] == done[j]);
            }
        }
    }
}

/// What is left after the last round is a run.
proof fn lemma_progress_end(
    k: PoseidonConstants,
    start: Sessions,
    s: Sessions,
    challenges: Seq<EF>,
    states: Seq<Sessions>,
    run: SessionRun,
)
    requires
        progress(k, start, s, challenges, run.rounds@, states),
        run.rounds@.len() == challenges.len(),
        whole(k, s),
        run.air_sum == s.air.sum,
        run.cell_link_sum == s.cell_link.sum,
        run.linear_sum == s.linear.sum,
        run.col_evals@ == s.air.row(0),
    ensures
        run.runs(k, start, challenges),
{
    reveal(progress);
    lemma_end(k, start, s, challenges);
    assert(challenges.take(challenges.len() as int) =~= challenges);
    assert(traversed(k, start, challenges, run.rounds@, states));
}

/// Runs the sessions over the challenges, one round for each; none where a coordinate of the
/// equality polynomial is zero.
pub fn run_sessions(k: &PoseidonConstants, sessions: Sessions, challenges: &Vec<EF>) -> (r: Option<SessionRun>)
    requires
        ready(*k, sessions, challenges@.len()),
    ensures
        r is Some <==> forall|i: int|
            0 <= i < challenges@.len() ==> #[trigger] sessions.air.eq_factor@[i] != EF::zero_spec(),
        r matches Some(run) ==> run.runs(*k, sessions, challenges@),
{
    let n: usize = challenges.len();
    let ghost start = sessions;
    let mut s = sessions;
    let ghost mut states: Seq<Sessions> = seq![sessions];
    let mut done: Vec<SessionRound> = Vec::new();
    let mut i: usize = 0;
    proof {
        lemma_progress_start(*k, s, challenges@);
        assert(done@ =~= Seq::<SessionRound>::empty());
    }
    while i < n
        invariant
            start == sessions,
            n == challenges@.len(),
            n == start.air.eq_factor@.len(),
            i <= n,
            done@.len() == i,
            progress(*k, start, s, challenges@, done@, states),
            forall|j: int| n - i <= j < n ==> #[trigger] start.air.eq_factor@[j] != EF::zero_spec(),
        decreases n - i,
    {
        let ghost before = s;
        let ghost rounds_before = done@;
        proof {
            lemma_progress_live(*k, start, s, challenges@, done@, states);
        }
        let round = match next_round(k, &s) {
            Some(round) => round,
            None => {
                assert(start.air.eq_factor@[n - 1 - i] == EF::zero_spec());
                return None;
            },
        };
        let challenge = challenges[i];
        challenge.assert_canonical();
        rounds::columns_canonical(&s.air.multilinears);
        rounds::columns_canonical(&s.cell_link.values);
        rounds::columns_canonical(&s.cell_link.coefficients);
        rounds::columns_canonical(&s.linear.values);
        s.air.missing_mul_factor.assert_canonical();
        take_challenge(k, &mut s, &round, challenge);
        proof {
            lemma_progress_step(*k, start, before, s, challenges@, rounds_before, states, round);
            states = states.push(s);
        }
        done.push(round);
        i = i + 1;
    }
    rounds::columns_canonical(&s.air.multilinears);
    rounds::columns_canonical(&s.cell_link.values);
    rounds::columns_canonical(&s.cell_link.coefficients);
    rounds::columns_canonical(&s.linear.values);
    s.air.missing_mul_factor.assert_canonical();
    proof {
        reveal(progress);
    }
    let run = SessionRun {
        air_sum: s.air.sum(),
        cell_link_sum: s.cell_link.sum(),
        linear_sum: s.linear.sum(),
        col_evals: s.air.final_column_evals(),
        rounds: done,
    };
    proof {
        lemma_progress_end(*k, start, s, challenges@, states, run);
    }
    Some(run)
}

} // verus!
