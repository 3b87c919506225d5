//! When the verifier accepts what is false.
use super::air_session;
use super::batch;
use super::completeness;
use super::detection;
use super::final_check;
use super::hash_table::LeanAirDedicatedHashTable;
use super::linear_session;
use super::linear_session::{DenseLinearBusSession, VirtualLinearBusSession};
use super::protocol::Challenges;
use super::prover;
use super::prover::Sessions;
use super::rounds;
use super::run;
use super::run::{SessionRound, SessionRun};
use super::sparse;
use crate::ext;
use crate::ext::EF;
use crate::mle;
use crate::poly;
use crate::poly::DensePolynomial;
use crate::poseidon::PoseidonConstants;
use vstd::arithmetic::power2::*;
use vstd::prelude::*;

verus! {

/// Whether a challenge is one of the few that a false round survives: the polynomial of the round
/// agrees with the round of the sessions at the challenge, though not at all of any eleven points.
pub open spec fn lucky(k: PoseidonConstants, s: Sessions, eta: EF, p: DensePolynomial, challenge: EF) -> bool {
    &&& poly::poly_at(p.coeffs@, challenge) == detection::batch_round_at(k, s, eta, challenge)
    &&& forall|points: Seq<EF>|
        points.len() == 11 && #[trigger] poly::apart(points) ==> exists|i: int|
            0 <= i < 11 && poly::poly_at(p.coeffs@, #[trigger] points[i]) != detection::batch_round_at(
                k,
                s,
                eta,
                points[i],
            )
}

/// A challenge leaves the claim on cell links that the round makes there.
proof fn lemma_cell_link_after(before: DenseLinearBusSession, after: DenseLinearBusSession, challenge: EF)
    requires
        before.wf(),
        before.current_n_vars > 0,
        challenge.canonical(),
        after.wf(),
        after.current_n_vars == before.current_n_vars - 1,
        after.missing_mul_factor == before.missing_mul_factor * rounds::eq_step(rounds::half(), challenge),
        after.values@.len() == before.values@.len(),
        forall|s: int, j: int|
            0 <= s < before.values@.len() && 0 <= j < pow2((before.current_n_vars - 1) as nat)
                ==> #[trigger] after.values@[s]@[j] == rounds::line(
                before.values@[s]@[2 * j],
                before.values@[s]@[2 * j + 1],
                challenge,
            ),
        forall|s: int, j: int|
            0 <= s < before.values@.len() && 0 <= j < pow2((before.current_n_vars - 1) as nat)
                ==> #[trigger] after.coefficients@[s]@[j] == rounds::line(
                before.coefficients@[s]@[2 * j],
                before.coefficients@[s]@[2 * j + 1],
                challenge,
            ),
    ensures
        after.claim() == before.round_at(challenge) * rounds::eq_step(rounds::half(), challenge),
{
    let n: nat = after.current_n_vars as nat;
    let v = linear_session::column_values(before.values@);
    let c = linear_session::column_values(before.coefficients@);
    let w = linear_session::column_values(after.values@);
    let d = linear_session::column_values(after.coefficients@);
    assert forall|s: int, j: int| 0 <= s < after.values@.len() && 0 <= j < pow2(n) implies #[trigger] w(s, j)
        == rounds::line(v(s, 2 * j), v(s, 2 * j + 1), challenge) by {
        assert(after.values@[s]@[j] == w(s, j));
    }
    assert forall|s: int, j: int| 0 <= s < after.values@.len() && 0 <= j < pow2(n) implies #[trigger] d(s, j)
        == rounds::line(c(s, 2 * j), c(s, 2 * j + 1), challenge) by {
        assert(after.coefficients@[s]@[j] == d(s, j));
    }
    linear_session::lemma_folded_claim(
        after.values@.len(),
        n,
        v,
        c,
        w,
        d,
        before.missing_mul_factor,
        challenge,
    );
}

/// A challenge leaves the mixed claim that the round makes there.
proof fn lemma_linear_after(before: VirtualLinearBusSession, after: VirtualLinearBusSession, challenge: EF)
    requires
        before.wf(),
        before.current_n_vars > 0,
        challenge.canonical(),
        after.wf(),
        after.current_n_vars == before.current_n_vars - 1,
        after.missing_mul_factor == before.missing_mul_factor * rounds::eq_step(rounds::half(), challenge),
        after.values@.len() == before.values@.len(),
        forall|s: int, j: int|
            0 <= s < before.values@.len() && 0 <= j < pow2((before.current_n_vars - 1) as nat)
                ==> #[trigger] after.values@[s]@[j] == rounds::line(
                before.values@[s]@[2 * j],
                before.values@[s]@[2 * j + 1],
                challenge,
            ),
        forall|s: int, j: int|
            0 <= s < before.values@.len() ==> #[trigger] sparse::value_at(after.coefficients@[s]@, j)
                == sparse::folded_value(before.coefficients@[s]@, challenge, j),
    ensures
        after.claim() == before.round_at(challenge) * rounds::eq_step(rounds::half(), challenge),
{
    let n: nat = after.current_n_vars as nat;
    let v = linear_session::column_values(before.values@);
    let c = linear_session::sparse_values(before.coefficients@);
    let w = linear_session::column_values(after.values@);
    let d = linear_session::sparse_values(after.coefficients@);
    assert forall|s: int, j: int| 0 <= s < after.values@.len() && 0 <= j < pow2(n) implies #[trigger] w(s, j)
        == rounds::line(v(s, 2 * j), v(s, 2 * j + 1), challenge) by {
        assert(after.values@[s]@[j] == w(s, j));
    }
    assert forall|s: int, j: int| 0 <= s < after.values@.len() && 0 <= j < pow2(n) implies #[trigger] d(s, j)
        == rounds::line(c(s, 2 * j), c(s, 2 * j + 1), challenge) by {
        assert(sparse::value_at(after.coefficients@[s]@, j) == sparse::folded_value(
            before.coefficients@[s]@,
            challenge,
            j,
        ));
    }
    linear_session::lemma_folded_claim(
        after.values@.len(),
        n,
        v,
        c,
        w,
        d,
        before.missing_mul_factor,
        challenge,
    );
}

/// A challenge leaves the mixed sums that the round takes there.
proof fn lemma_claim_after(k: PoseidonConstants, before: Sessions, after: Sessions, eta: EF, challenge: EF)
    requires
        run::live(k, before),
        challenge.canonical(),
        run::stepped(before, after, challenge),
    ensures
        detection::batch_claim(k, after, eta) == detection::batch_round_at(k, before, eta, challenge),
{
    air_session::lemma_claim_after(before.air, after.air, challenge, k);
    lemma_cell_link_after(before.cell_link, after.cell_link, challenge);
    lemma_linear_after(before.linear, after.linear, challenge);
}

/// What holds of the sessions after `i` rounds.
proof fn lemma_along(
    k: PoseidonConstants,
    start: Sessions,
    point: Seq<EF>,
    rounds: Seq<SessionRound>,
    states: Seq<Sessions>,
    i: nat,
)
    requires
        run::ready(k, start, point.len()),
        run::traversed(k, start, point, rounds, states),
        i <= point.len(),
    ensures
        run::follows(k, start, states[i as int], point, i),
        i < point.len() ==> run::live(k, states[i as int]),
    decreases i,
{
    if i == 0 {
        run::lemma_start(k, start, point);
    } else {
        let j: nat = (i - 1) as nat;
        lemma_along(k, start, point, rounds, states, j);
        assert(run::whole(k, states[j as int]));
        if i < point.len() {
            assert(run::whole(k, states[i as int]));
        }
        run::lemma_round(k, start, states[j as int], states[i as int], point, j);
    }
}

/// Where a false sum has become a true one, a challenge was lucky.
proof fn lemma_turn(
    k: PoseidonConstants,
    start: Sessions,
    eta: EF,
    point: Seq<EF>,
    rounds: Seq<SessionRound>,
    states: Seq<Sessions>,
    polys: Seq<DensePolynomial>,
    n: int,
) -> (i: int)
    requires
        run::ready(k, start, point.len()),
        run::traversed(k, start, point, rounds, states),
        polys.len() == point.len(),
        batch::rounds_hold(polys, point),
        EF::zero_spec() != detection::batch_claim(k, start, eta),
        0 <= n <= point.len(),
        batch::target(polys, point, n) == detection::batch_claim(k, states[n], eta),
    ensures
        0 <= i < n,
        lucky(k, states[i], eta, polys[i], point[i]),
    decreases n,
{
    let j: int = n - 1;
    if n == 0 {
        assert(false);
        0
    } else if batch::target(polys, point, j) == detection::batch_claim(k, states[j], eta) {
        lemma_turn(k, start, eta, point, rounds, states, polys, j)
    } else {
        let s = states[j];
        let p = polys[j];
        let sum = batch::target(polys, point, j);
        lemma_along(k, start, point, rounds, states, j as nat);
        assert(run::whole(k, states[j]));
        assert(batch::round_holds(polys[j], sum));
        lemma_claim_after(k, s, states[n], eta, point[j]);
        assert forall|points: Seq<EF>| points.len() == 11 && #[trigger] poly::apart(points) implies exists|i: int|
            0 <= i < 11 && poly::poly_at(p.coeffs@, #[trigger] points[i]) != detection::batch_round_at(
                k,
                s,
                eta,
                points[i],
            ) by {
            detection::law_false_batch_sum_is_caught(k, s, eta, sum, p, points);
        }
        j
    }
}

/// Opened sessions can be run.
proof fn lemma_opened_ready(k: PoseidonConstants, table: LeanAirDedicatedHashTable, ch: Challenges, s: Sessions)
    requires
        prover::opened(table, ch, s, k),
    ensures
        run::ready(k, s, ch.eq_point@.len()),
{
}

/// The mixed sums that are left after the last round are the value that is asked for.
proof fn lemma_last_claim(
    k: PoseidonConstants,
    table: LeanAirDedicatedHashTable,
    ch: Challenges,
    s: Sessions,
    point: Seq<EF>,
    evals: Seq<EF>,
    last: Sessions,
)
    requires
        table.columns@.len() == 92,
        prover::opened(table, ch, s, k),
        point.len() == ch.eq_point@.len(),
        run::follows(k, s, last, point, point.len()),
        run::whole(k, last),
        evals.len() == 92,
        forall|c: int|
            0 <= c < 92 ==> #[trigger] evals[c] == mle::mle_at(run::hash_column(s.air, c), point.reverse()),
    ensures
        detection::batch_claim(k, last, ch.eta) == final_check::expected_value(
            k,
            table.shape,
            ch,
            point.reverse(),
            point,
            evals,
        ),
{
    run::lemma_end(k, s, last, point);
    completeness::lemma_cell_links(k, table, ch, s, point, evals);
    completeness::lemma_mixed(k, table, ch, s, point, evals);
    assert(evals =~= last.air.row(0));
    assert(s.air.alphas@ =~= final_check::alpha_powers(ch.air_alpha));
    let half = rounds::half().pow(point.len());
    let cells = final_check::cell_link_value(table.shape, ch, point, evals);
    let mixed = final_check::mixed_value(table.shape, ch, point, evals);
    ext::lemma_mul_assoc(ch.eta, half, cells);
    ext::lemma_mul_assoc(ch.eta * ch.eta, half, mixed);
}

/// What is false is accepted by luck alone. Take any table, whether its rows are codewords or not,
/// and the values of its columns at the point of the challenges. Where the sums over the table are
/// not zero, and the verifier still accepts the rounds and the value that is left, one of the
/// challenges was lucky.
pub proof fn law_false_table_needs_luck(
    k: PoseidonConstants,
    table: LeanAirDedicatedHashTable,
    ch: Challenges,
    s: Sessions,
    point: Seq<EF>,
    run: SessionRun,
    polys: Seq<DensePolynomial>,
)
    requires
        table.columns@.len() == 92,
        prover::opened(table, ch, s, k),
        point.len() == ch.eq_point@.len(),
        run.runs(k, s, point),
        polys.len() == point.len(),
        detection::batch_claim(k, s, ch.eta) != EF::zero_spec(),
        batch::rounds_hold(polys, point),
        batch::target(polys, point, point.len() as int) == final_check::expected_value(
            k,
            table.shape,
            ch,
            point.reverse(),
            point,
            run.col_evals@,
        ),
    ensures
        exists|states: Seq<Sessions>, i: int|
            {
                &&& #[trigger] run::traversed(k, s, point, run.rounds@, states)
                &&& 0 <= i < point.len()
                &&& lucky(k, states[i], ch.eta, #[trigger] polys[i], point[i])
            },
{
    let n: nat = point.len();
    let rounds = run.rounds@;
    let states = choose|states: Seq<Sessions>| #[trigger] run::traversed(k, s, point, rounds, states);
    lemma_opened_ready(k, table, ch, s);
    lemma_along(k, s, point, rounds, states, n);
    lemma_last_claim(k, table, ch, s, point, run.col_evals@, states[n as int]);
    let i = lemma_turn(k, s, ch.eta, point, rounds, states, polys, n as int);
    assert(lucky(k, states[i], ch.eta, polys[i], point[i]));
}

} // verus!
