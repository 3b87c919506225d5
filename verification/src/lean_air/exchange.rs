//! What the prover computes from the challenges, and what the verifier decides.
use super::air_session;
use super::batch;
use super::claims;
use super::completeness;
use super::final_check;
use super::hash_table::LeanAirDedicatedHashTable;
use super::honest;
use super::parity;
use super::protocol;
use super::protocol::{Challenges, ProofError, SparseStatement};
use super::prover;
use super::prover::Sessions;
use super::run;
use super::run::SessionRun;
use super::schedule;
use super::shape::LeanAirShape;
use crate::arith;
use crate::ext::EF;
use crate::field::{F, TWO_ADICITY};
use crate::poly::DensePolynomial;
use crate::poseidon::{PoseidonConstants, DEDICATED_HASH_NUM_COLS};
use vstd::arithmetic::power2::*;
use vstd::prelude::*;

verus! {

impl SessionRun {
    /// The sum of all claims that are left, mixed by `eta`.
    pub fn combined_value(&self, eta: EF) -> (r: EF)
        ensures
            r == self.value(eta),
    {
        self.air_sum.add(eta.mul(self.cell_link_sum)).add(eta.square().mul(self.linear_sum))
    }
}

/// What the prover computes: the rounds, the polynomials that it sends of them, and the statements
/// that it opens its commitment for.
#[derive(Debug)]
pub struct ProverValues {
    pub run: SessionRun,
    pub polys: Vec<DensePolynomial>,
    pub statements: Vec<SparseStatement>,
}

impl ProverValues {
    /// Whether these are the values of a table for the given challenges.
    pub open spec fn proves(
        self,
        k: PoseidonConstants,
        table: LeanAirDedicatedHashTable,
        ch: Challenges,
        point: Seq<EF>,
        s: Sessions,
    ) -> bool {
        &&& prover::opened(table, ch, s, k)
        &&& self.run.runs(k, s, point)
        &&& batch::batches(self.run, ch.eq_point@, ch.eta, self.polys@)
        &&& protocol::statements_spec(
            table.shape,
            table.schedule.padded_rows as int,
            arith::log2_ceil_spec((92 * table.schedule.padded_rows) as nat) as int,
            point.reverse(),
            self.run.col_evals@,
            table.commitments.commitment_root@,
            self.statements@,
        )
    }
}

/// Computes what the prover sends, from the challenges before the sumcheck and those of its rounds;
/// none where the parity point is not outside the domain, or a coordinate of the equality polynomial
/// is zero.
pub fn prove_claims(
    k: &PoseidonConstants,
    table: &LeanAirDedicatedHashTable,
    ch: &Challenges,
    point: &Vec<EF>,
    packing_log_width: usize,
) -> (r: Option<ProverValues>)
    requires
        prover::provable(*table),
        table.schedule.padded_rows == pow2(ch.eq_point@.len()),
        point@.len() == ch.eq_point@.len(),
        packing_log_width < air_session::pivot_of(ch.eq_point@.len() as int),
        92 * table.schedule.padded_rows <= usize::MAX,
    ensures
        r is Some <==> parity::outside_domain(table.shape.log_m as nat, ch.parity_point) && forall|i: int|
            0 <= i < ch.eq_point@.len() ==> #[trigger] ch.eq_point@[i] != EF::zero_spec(),
        r is Some ==> exists|s: Sessions| (r->0).proves(*k, *table, *ch, point@, s),
{
    let sessions = match prover::open_sessions(k, table, ch, packing_log_width) {
        Some(sessions) => sessions,
        None => {
            return None;
        },
    };
    let ghost s = sessions;
    let run = match run::run_sessions(k, sessions, point) {
        Some(run) => run,
        None => {
            return None;
        },
    };
    let rows: usize = table.schedule.padded_rows;
    proof {
        lemma_pow2_pos(ch.eq_point@.len());
        schedule::lemma_row_products_valid(table.shape);
        arith::lemma_next_pow2((table.shape.total_rows() + 1) as nat);
    }
    let global_n_vars: usize = arith::log2_ceil(DEDICATED_HASH_NUM_COLS * rows);
    let natural = claims::reversed_point(point);
    let statements = protocol::whir_statements_from_public(
        table.shape,
        rows,
        global_n_vars,
        &natural,
        &run.col_evals,
        table.commitments.commitment_root,
    );
    let polys = run.batch(&ch.eq_point, ch.eta);
    let values = ProverValues { run, polys, statements };
    let result = Some(values);
    assert((result->0).proves(*k, *table, *ch, point@, s));
    result
}

/// Decides on the value that the sumcheck ended with: an error where it is not the one that the
/// values of the columns ask for, and else the statements that the commitment is opened for.
pub fn check_claims(
    k: &PoseidonConstants,
    shape: LeanAirShape,
    commitment_root: [F; 8],
    ch: &Challenges,
    point: &Vec<EF>,
    claimed: EF,
    col_evals: &Vec<EF>,
) -> (r: Result<Vec<SparseStatement>, ProofError>)
    requires
        shape.valid(),
        shape.fits(),
        shape.log_m < TWO_ADICITY,
        92 * shape.table_rows() <= usize::MAX,
        shape.table_rows() == pow2(point@.len()),
        point@.len() == ch.eq_point@.len(),
        col_evals@.len() == 92,
        parity::outside_domain(shape.log_m as nat, ch.parity_point),
    ensures
        r is Ok <==> claimed == final_check::expected_value(
            *k,
            shape,
            *ch,
            point@.reverse(),
            point@,
            col_evals@,
        ),
        r matches Err(e) ==> e == ProofError::InvalidProof,
        r matches Ok(statements) ==> protocol::statements_spec(
            shape,
            shape.table_rows() as int,
            arith::log2_ceil_spec(92 * shape.table_rows()) as int,
            point@.reverse(),
            col_evals@,
            commitment_root@,
            statements@,
        ),
{
    let natural = claims::reversed_point(point);
    match final_check::check_final_value(k, shape, ch, &natural, point, col_evals, claimed) {
        Ok(()) => {},
        Err(e) => {
            return Err(e);
        },
    }
    proof {
        lemma_pow2_pos(ch.eq_point@.len());
        schedule::lemma_row_products_valid(shape);
        arith::lemma_next_pow2((shape.total_rows() + 1) as nat);
    }
    let rows: usize = schedule::poseidon_rows_for_shape(shape);
    let global_n_vars: usize = arith::log2_ceil(DEDICATED_HASH_NUM_COLS * rows);
    Ok(protocol::whir_statements_from_public(shape, rows, global_n_vars, &natural, col_evals, commitment_root))
}

/// Decides on what the prover sent: an error where a round does not claim the sum that it has to, or
/// the value that is left is not the one that the values of the columns ask for, and else the
/// statements that the commitment is opened for.
pub fn verify_claims(
    k: &PoseidonConstants,
    shape: LeanAirShape,
    commitment_root: [F; 8],
    ch: &Challenges,
    polys: &Vec<DensePolynomial>,
    point: &Vec<EF>,
    col_evals: &Vec<EF>,
) -> (r: Result<Vec<SparseStatement>, ProofError>)
    requires
        shape.valid(),
        shape.fits(),
        shape.log_m < TWO_ADICITY,
        92 * shape.table_rows() <= usize::MAX,
        shape.table_rows() == pow2(point@.len()),
        point@.len() == ch.eq_point@.len(),
        polys@.len() == point@.len(),
        col_evals@.len() == 92,
        parity::outside_domain(shape.log_m as nat, ch.parity_point),
    ensures
        r is Ok <==> batch::rounds_hold(polys@, point@) && batch::target(polys@, point@, point@.len() as int)
            == final_check::expected_value(*k, shape, *ch, point@.reverse(), point@, col_evals@),
        r matches Err(e) ==> e == ProofError::InvalidProof,
        r matches Ok(statements) ==> protocol::statements_spec(
            shape,
            shape.table_rows() as int,
            arith::log2_ceil_spec(92 * shape.table_rows()) as int,
            point@.reverse(),
            col_evals@,
            commitment_root@,
            statements@,
        ),
{
    match batch::check_rounds(polys, point) {
        Ok(claimed) => check_claims(k, shape, commitment_root, ch, point, claimed, col_evals),
        Err(e) => Err(e),
    }
}

/// A table has more than one row.
pub proof fn lemma_rounds_exist(shape: LeanAirShape, point: Seq<EF>)
    requires
        shape.valid(),
        shape.fits(),
        shape.table_rows() == pow2(point.len()),
    ensures
        point.len() > 0,
{
    schedule::lemma_row_products_valid(shape);
    arith::lemma_next_pow2((shape.total_rows() + 1) as nat);
    lemma2_to64();
}

/// What the prover computes of codewords is accepted, whatever the challenges: every round claims the
/// sum that it has to, the value that is left is the one that is asked for, and every statement
/// holds of the polynomial that was committed to.
pub proof fn law_honest_claims_are_accepted(
    k: PoseidonConstants,
    shape: LeanAirShape,
    data: Seq<Seq<F>>,
    messages: Seq<Seq<EF>>,
    table: LeanAirDedicatedHashTable,
    ch: Challenges,
    point: Seq<EF>,
    s: Sessions,
    values: ProverValues,
)
    requires
        shape.valid(),
        shape.fits(),
        shape.log_m < TWO_ADICITY,
        honest::rows_of_codewords(shape, data, messages),
        table.holds(k, shape, data),
        shape.table_rows() == pow2(ch.eq_point@.len()),
        point.len() == ch.eq_point@.len(),
        values.proves(k, table, ch, point, s),
    ensures
        batch::rounds_hold(values.polys@, point),
        batch::target(values.polys@, point, point.len() as int) == final_check::expected_value(
            k,
            shape,
            ch,
            point.reverse(),
            point,
            values.run.col_evals@,
        ),
        forall|i: int| 0 <= i < 9 ==> (#[trigger] values.statements@[i]).holds(prover::committed(table)),
{
    completeness::law_honest_run_is_accepted(k, shape, data, messages, table, ch, s, point, values.run);
    prover::law_honest_sessions_start_true(k, shape, data, messages, table, ch, s);
    lemma_rounds_exist(shape, point);
    batch::law_true_run_is_accepted(k, s, point, values.run, ch.eta, values.polys@);
    honest::lemma_codeword_rows_full(shape, data, messages);
    prover::law_honest_statements_hold(
        k,
        shape,
        data,
        table,
        arith::log2_ceil_spec((92 * table.schedule.padded_rows) as nat) as int,
        point.reverse(),
        values.run.col_evals@,
        values.statements@,
    );
}

} // verus!
