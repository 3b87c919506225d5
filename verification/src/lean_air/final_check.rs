//! The last check of the verifier before the commitment is opened.
use super::air;
use super::air::LeanAirDedicatedHashAir;
use super::air_session;
use super::air_session::DedicatedHashAirSumcheckSession;
use super::claims;
use super::coefficients;
use super::linear_session;
use super::linear_session::{DenseLinearBusSession, VirtualLinearBusSession};
use super::parity;
use super::protocol;
use super::protocol::{Challenges, LeanAirProofMetadata, ProofError, RawProof};
use super::rounds;
use super::schedule;
use super::shape::LeanAirShape;
use crate::arith;
use crate::ext;
use crate::ext::EF;
use crate::field::{F, TWO_ADICITY};
use crate::mle;
use crate::poseidon::{PoseidonConstants, DEDICATED_HASH_NUM_COLS};
use crate::sums;
use vstd::arithmetic::power2::*;
use vstd::prelude::*;

verus! {

/// The powers of the batching challenge.
pub open spec fn alpha_powers(alpha: EF) -> Seq<EF> {
    Seq::new(77, |i: int| alpha.pow(i as nat))
}

/// The claim on the steps of cell hashes at the point of the sumcheck.
pub open spec fn cell_link_value(shape: LeanAirShape, ch: Challenges, point: Seq<EF>, col_evals: Seq<EF>) -> EF {
    sums::sum(
        16,
        |slot: int|
            mle::mle_at(
                |row: int| coefficients::cell_link_coeff(shape, ch.cell_link_point, slot, row),
                point.reverse(),
            ) * col_evals[claims::cell_link_column_of(slot)],
    )
}

/// The mixed claim at the point of the sumcheck.
pub open spec fn mixed_value(shape: LeanAirShape, ch: Challenges, point: Seq<EF>, col_evals: Seq<EF>) -> EF {
    sums::sum(
        24,
        |slot: int|
            mle::mle_at(
                |row: int|
                    claims::mixed_coeff(
                        shape,
                        ch.row_coeff_alpha,
                        ch.parity_point,
                        ch.link_point,
                        ch.link_mix,
                        slot,
                        row,
                    ),
                point.reverse(),
            ) * col_evals[claims::link_column(slot)],
    )
}

/// The value that the sumcheck has to end with, from the claimed values of the columns: the
/// constraints with the equality polynomial, plus the two linear claims with their mixing challenges.
pub open spec fn expected_value(
    k: PoseidonConstants,
    shape: LeanAirShape,
    ch: Challenges,
    natural_point: Seq<EF>,
    sumcheck_point: Seq<EF>,
    col_evals: Seq<EF>,
) -> EF {
    let half = rounds::half().pow(sumcheck_point.len());
    mle::eq_poly(ch.eq_point@, natural_point) * air::combined_constraints(k, alpha_powers(ch.air_alpha), col_evals)
        + ch.eta * half * cell_link_value(shape, ch, sumcheck_point, col_evals) + ch.eta * ch.eta * half
        * mixed_value(shape, ch, sumcheck_point, col_evals)
}

/// The sum of products of coefficients and of the values of their columns.
fn weighted_columns(coeffs: &Vec<EF>, columns: &Vec<usize>, col_evals: &Vec<EF>) -> (r: EF)
    requires
        coeffs@.len() == columns@.len(),
        forall|s: int| 0 <= s < columns@.len() ==> (#[trigger] columns@[s]) < col_evals@.len(),
    ensures
        r == sums::sum(coeffs@.len(), |s: int| coeffs@[s] * col_evals@[columns@[s] as int]),
{
    let ghost f = |s: int| coeffs@[s] * col_evals@[columns@[s] as int];
    let mut acc = EF::zero();
    let mut s: usize = 0;
    while s < coeffs.len()
        invariant
            s <= coeffs@.len(),
            coeffs@.len() == columns@.len(),
            forall|s: int| 0 <= s < columns@.len() ==> (#[trigger] columns@[s]) < col_evals@.len(),
            f == (|s: int| coeffs@[s] * col_evals@[columns@[s] as int]),
            acc == sums::sum(s as nat, f),
        decreases coeffs@.len() - s,
    {
        acc = acc.add(coeffs[s].mul(col_evals[columns[s]]));
        s = s + 1;
    }
    acc
}

/// The value that the sumcheck has to end with.
pub fn expected_combined_final_value(
    k: &PoseidonConstants,
    shape: LeanAirShape,
    ch: &Challenges,
    natural_point: &Vec<EF>,
    sumcheck_point: &Vec<EF>,
    col_evals: &Vec<EF>,
) -> (r: EF)
    requires
        shape.valid(),
        shape.fits(),
        shape.log_m < TWO_ADICITY,
        shape.table_rows() == pow2(sumcheck_point@.len()),
        natural_point@.len() == ch.eq_point@.len(),
        col_evals@.len() == 92,
        parity::outside_domain(shape.log_m as nat, ch.parity_point),
    ensures
        r == expected_value(*k, shape, *ch, natural_point@, sumcheck_point@, col_evals@),
{
    proof {
        schedule::lemma_row_products_valid(shape);
    }
    let rows: usize = schedule::poseidon_rows_for_shape(shape);
    let alphas = protocol::extra_data_for_air(ch.air_alpha);
    assert(alphas@ =~= alpha_powers(ch.air_alpha));
    let air = LeanAirDedicatedHashAir;
    let constraint_eval = air.eval_extension(k, col_evals, &alphas);
    let eq_val = mle::eq_poly_outside(&ch.eq_point, natural_point);
    let linear = claims::linear_coefficient_evals_from_schedule(
        shape,
        rows,
        ch.row_coeff_alpha,
        ch.parity_point,
        ch.link_point,
        ch.link_mix,
        sumcheck_point,
    );
    let linear_coeffs = match linear {
        Some(coeffs) => coeffs,
        None => {
            Vec::new()
        },
    };
    let cell_link_coeffs = claims::cell_link_coefficient_evals_from_schedule(
        shape,
        rows,
        ch.cell_link_point,
        sumcheck_point,
    );
    let cell_link_columns = claims::cell_link_column_indexes();
    let link_columns = claims::link_column_indexes();
    proof {
        assert forall|s: int| 0 <= s < 16 implies (#[trigger] cell_link_columns@[s]) < 92 by {
            assert(cell_link_columns@[s] == claims::cell_link_column_of(s));
        }
        assert forall|s: int| 0 <= s < 24 implies (#[trigger] link_columns@[s]) < 92 by {
            assert(link_columns@[s] == claims::link_column(s));
        }
    }
    let cell_link_eval = weighted_columns(&cell_link_coeffs, &cell_link_columns, col_evals);
    let linear_eval = weighted_columns(&linear_coeffs, &link_columns, col_evals);
    proof {
        let a = |s: int| cell_link_coeffs@[s] * col_evals@[cell_link_columns@[s] as int];
        let b = |slot: int|
            mle::mle_at(
                |row: int| coefficients::cell_link_coeff(shape, ch.cell_link_point, slot, row),
                sumcheck_point@.reverse(),
            ) * col_evals@[claims::cell_link_column_of(slot)];
        assert forall|s: int| 0 <= s < 16 implies #[trigger] a(s) == b(s) by {
            assert(cell_link_columns@[s] == claims::cell_link_column_of(s));
            assert(cell_link_coeffs@[s] == mle::mle_at(
                |row: int| coefficients::cell_link_coeff(shape, ch.cell_link_point, s, row),
                sumcheck_point@.reverse(),
            ));
        }
        sums::lemma_sum_ext(16, a, b);
        let a = |s: int| linear_coeffs@[s] * col_evals@[link_columns@[s] as int];
        let b = |slot: int|
            mle::mle_at(
                |row: int|
                    claims::mixed_coeff(
                        shape,
                        ch.row_coeff_alpha,
                        ch.parity_point,
                        ch.link_point,
                        ch.link_mix,
                        slot,
                        row,
                    ),
                sumcheck_point@.reverse(),
            ) * col_evals@[claims::link_column(slot)];
        assert forall|s: int| 0 <= s < 24 implies #[trigger] a(s) == b(s) by {
            assert(link_columns@[s] == claims::link_column(s));
            assert(linear_coeffs@[s] == mle::mle_at(
                |row: int|
                    claims::mixed_coeff(
                        shape,
                        ch.row_coeff_alpha,
                        ch.parity_point,
                        ch.link_point,
                        ch.link_mix,
                        s,
                        row,
                    ),
                sumcheck_point@.reverse(),
            ));
        }
        sums::lemma_sum_ext(24, a, b);
    }
    let half = rounds::constant_half_eq_eval(sumcheck_point.len());
    eq_val.mul(constraint_eval).add(ch.eta.mul(half).mul(cell_link_eval)).add(
        ch.eta.square().mul(half).mul(linear_eval),
    )
}

/// Accepts the value that the sumcheck ended with if and only if it is the expected one.
pub fn check_final_value(
    k: &PoseidonConstants,
    shape: LeanAirShape,
    ch: &Challenges,
    natural_point: &Vec<EF>,
    sumcheck_point: &Vec<EF>,
    col_evals: &Vec<EF>,
    claimed: EF,
) -> (r: Result<(), ProofError>)
    requires
        shape.valid(),
        shape.fits(),
        shape.log_m < TWO_ADICITY,
        shape.table_rows() == pow2(sumcheck_point@.len()),
        natural_point@.len() == ch.eq_point@.len(),
        col_evals@.len() == 92,
        parity::outside_domain(shape.log_m as nat, ch.parity_point),
    ensures
        r is Ok <==> claimed == expected_value(*k, shape, *ch, natural_point@, sumcheck_point@, col_evals@),
        r is Err ==> r == Err::<(), ProofError>(ProofError::InvalidProof),
{
    let expected = expected_combined_final_value(k, shape, ch, natural_point, sumcheck_point, col_evals);
    if claimed != expected {
        return Err(ProofError::InvalidProof);
    }
    Ok(())
}

/// What the prover says of a proof that it made, and the verifier of one that it accepts.
pub fn verified_metadata(shape: LeanAirShape, commitment_root: [F; 8], raw: &RawProof) -> (r: LeanAirProofMetadata)
    requires
        shape.valid(),
        shape.fits(),
        92 * shape.table_rows() <= usize::MAX,
        raw.size() <= usize::MAX,
    ensures
        r.shape == shape,
        r.commitment_root == commitment_root,
        r.global_n_vars == arith::log2_ceil_spec(92 * shape.table_rows()),
        pow2(r.poseidon_log_rows as nat) == shape.table_rows(),
        r.poseidon_columns == 92,
        r.proof_size_fe == raw.size(),
        r.poseidon_columns * pow2(r.poseidon_log_rows as nat) <= pow2(r.global_n_vars as nat),
        pow2(r.global_n_vars as nat) < 2 * (r.poseidon_columns * pow2(r.poseidon_log_rows as nat)),
{
    proof {
        schedule::lemma_row_products_valid(shape);
        arith::lemma_next_pow2((shape.total_rows() + 1) as nat);
        arith::lemma_next_pow2(92 * shape.table_rows());
    }
    let rows: usize = schedule::poseidon_rows_for_shape(shape);
    LeanAirProofMetadata {
        shape,
        commitment_root,
        global_n_vars: arith::log2_ceil(DEDICATED_HASH_NUM_COLS * rows),
        poseidon_log_rows: arith::log2_strict(rows),
        poseidon_columns: DEDICATED_HASH_NUM_COLS,
        proof_size_fe: raw.proof_size_fe(),
    }
}

/// A challenge moves one factor of the equality polynomial from the coordinates that are left to the
/// factor of the session, so that their product is kept.
pub proof fn law_equality_factor_is_kept(
    before: DedicatedHashAirSumcheckSession,
    after: DedicatedHashAirSumcheckSession,
    challenge: EF,
    rest: Seq<EF>,
)
    requires
        before.eq_factor@.len() > 0,
        rest.len() == before.eq_factor@.len() - 1,
        air_session::after_challenge(before, after, challenge),
    ensures
        after.missing_mul_factor * mle::eq_poly(after.eq_factor@, rest) == before.missing_mul_factor * mle::eq_poly(
            before.eq_factor@,
            rest.push(challenge),
        ),
{
    let e = mle::eq_poly(after.eq_factor@, rest);
    let step = rounds::eq_step(before.eq_factor@.last(), challenge);
    assert(rest.push(challenge).drop_last() =~= rest);
    ext::lemma_mul_assoc(before.missing_mul_factor, step, e);
    ext::lemma_mul_comm(step, e);
}

/// When every variable is set, the claim of the hash session is the constraints on the row that is
/// left, times the factor of the equality polynomial.
pub proof fn law_last_hash_claim(s: DedicatedHashAirSumcheckSession, k: PoseidonConstants)
    requires
        s.rounds_done == s.initial_n_vars,
        s.eq_factor@.len() == 0,
    ensures
        s.claim(k) == air::combined_constraints(k, s.alphas@, s.row(0)) * s.missing_mul_factor,
{
    lemma2_to64();
    let f = |i: int| air::combined_constraints(k, s.alphas@, s.row(i)) * mle::eq_weight(s.eq_factor@, i);
    let c = air::combined_constraints(k, s.alphas@, s.row(0));
    assert(sums::sum(1, f) == sums::sum(0, f) + f(0));
    sums::lemma_sum_canonical(76, |i: int| s.alphas@[i] * air::constraints_spec(k, s.row(0))[i]);
    ext::lemma_mul_one(c);
    ext::lemma_add_zero(c);
    ext::lemma_add_comm(EF::zero_spec(), c);
}

/// The sum of the products of the first values of columns.
pub open spec fn first_products(m: nat, v: spec_fn(int, int) -> EF, c: spec_fn(int, int) -> EF) -> EF {
    sums::sum(m, |s: int| v(s, 0) * c(s, 0))
}

proof fn lemma_last_products(m: nat, v: spec_fn(int, int) -> EF, c: spec_fn(int, int) -> EF, missing: EF)
    ensures
        linear_session::claim_weight(0, missing) * rounds::product_sum(m, pow2(0), v, c) == missing * first_products(
            m,
            v,
            c,
        ),
{
    lemma2_to64();
    let a = |s: int| sums::sum(1, |i: int| v(s, i) * c(s, i));
    let b = |s: int| v(s, 0) * c(s, 0);
    assert forall|s: int| 0 <= s < m implies #[trigger] a(s) == b(s) by {
        let f = |i: int| v(s, i) * c(s, i);
        assert(sums::sum(1, f) == sums::sum(0, f) + f(0));
        ext::lemma_mul_canonical(v(s, 0), c(s, 0));
        ext::lemma_add_zero(f(0));
        ext::lemma_add_comm(EF::zero_spec(), f(0));
    }
    sums::lemma_sum_ext(m, a, b);
    let p = first_products(m, v, c);
    ext::lemma_mul_assoc(EF::one_spec(), missing, p);
    ext::lemma_mul_canonical(missing, p);
    ext::lemma_mul_one(missing * p);
}

/// When every variable is set, the claim of a linear session is the sum of the products of what is
/// left of the values and the coefficients, times the factor.
pub proof fn law_last_linear_claims(dense: DenseLinearBusSession, sparse: VirtualLinearBusSession)
    requires
        dense.current_n_vars == 0,
        sparse.current_n_vars == 0,
    ensures
        dense.claim() == dense.missing_mul_factor * first_products(
            dense.values@.len(),
            linear_session::column_values(dense.values@),
            linear_session::column_values(dense.coefficients@),
        ),
        sparse.claim() == sparse.missing_mul_factor * first_products(
            sparse.values@.len(),
            linear_session::column_values(sparse.values@),
            linear_session::sparse_values(sparse.coefficients@),
        ),
{
    lemma_last_products(
        dense.values@.len(),
        linear_session::column_values(dense.values@),
        linear_session::column_values(dense.coefficients@),
        dense.missing_mul_factor,
    );
    lemma_last_products(
        sparse.values@.len(),
        linear_session::column_values(sparse.values@),
        linear_session::sparse_values(sparse.coefficients@),
        sparse.missing_mul_factor,
    );
}

} // verus!
