use leanda::ext::EF;
use leanda::field::F;
use leanda::lean_air::air::LeanAirDedicatedHashAir;
use leanda::lean_air::batch::{check_round, check_rounds};
use leanda::lean_air::claims::{
    add_cell_link_coefficient_evals, add_link_coefficient_evals, cell_link_column_indexes, dense_linear_sum, link_column_indexes, link_column_slot, sparse_linear_sum,
};
use leanda::lean_air::coefficients::{cell_link_dense_coefficients, link_sparse_coefficients};
use leanda::lean_air::exchange::{check_claims, prove_claims, verify_claims, ProverValues};
use leanda::lean_air::final_check::{check_final_value, expected_combined_final_value, verified_metadata};
use leanda::lean_air::hash_table::{deterministic_codewords, LeanAirDedicatedHashTable};
use leanda::lean_air::parity::barycentric_slices;
use leanda::lean_air::positions::codeword_limb_position;
use leanda::lean_air::protocol::{
    default_lean_air_whir_config, extra_data_for_air, global_polynomial, public_scalars, public_scalars_from_shape,
    row_coefficient_alpha,
    whir_statements_from_public, Challenges, MerkleOpening, ProofError, RawProof, SparseStatement, WhirConfigBuilder,
    CHALLENGES_AFTER_EQ_POINT,
};
use leanda::lean_air::prover::{mixed_coefficients, open_sessions, open_sessions_with};
use leanda::lean_air::run::{run_sessions, SessionRound, SessionRun};
use leanda::lean_air::shape::LeanAirShape;
use leanda::lean_air::totals::weighted_air_sum;
use leanda::mle::eval_eq;
use leanda::ntt::rs_encode;
use leanda::poly::DensePolynomial;
use leanda::poseidon::{PoseidonConstants, DEDICATED_HASH_INPUT_START, DEDICATED_HASH_NUM_COLS};

fn constants() -> PoseidonConstants {
    let mut state: u64 = 0x9e37_79b9_7f4a_7c15;
    let mut next = move || {
        state = state.wrapping_mul(6364136223846793005).wrapping_add(1442695040888963407);
        F::from_u64(state >> 20)
    };
    let mut row = || -> [F; 16] { core::array::from_fn(|_| next()) };
    PoseidonConstants {
        initial: core::array::from_fn(|_| row()),
        ending: core::array::from_fn(|_| row()),
        mds: core::array::from_fn(|_| row()),
        sparse_first_round: row(),
        sparse_m_i: core::array::from_fn(|_| row()),
        sparse_first_row: core::array::from_fn(|_| row()),
        sparse_v: core::array::from_fn(|_| row()),
        sparse_scalar: {
            let a = row();
            let b = row();
            core::array::from_fn(|i| if i < 16 { a[i] } else { b[i - 16] })
        },
    }
}

/// Challenges that depend on the public data.
struct Source {
    state: u64,
}

impl Source {
    fn new(public: &[F]) -> Source {
        let mut state = 1;
        for x in public {
            state = (state ^ x.as_u32() as u64).wrapping_mul(0x100_0000_01b3);
        }
        Source { state }
    }

    fn base(&mut self) -> F {
        self.state = self.state.wrapping_mul(6364136223846793005).wrapping_add(1442695040888963407);
        F::from_u64(self.state >> 20)
    }

    fn next(&mut self) -> EF {
        EF::from_basis_coefficients([self.base(), self.base(), self.base(), self.base(), self.base()])
    }
}

fn challenges_from(source: &mut Source, log_rows: usize, row_coeff_alpha: EF) -> Challenges {
    let samples: Vec<EF> = (0..log_rows + CHALLENGES_AFTER_EQ_POINT).map(|_| source.next()).collect();
    Challenges::from_samples(&samples, log_rows, row_coeff_alpha)
}

struct Proved {
    challenges: Challenges,
    point: Vec<EF>,
    run: SessionRun,
    polys: Vec<DensePolynomial>,
    global: Vec<F>,
    root: [F; 8],
    global_n_vars: usize,
    rows: usize,
}

fn prove(k: &PoseidonConstants, shape: LeanAirShape, codewords: &Vec<Vec<EF>>) -> Proved {
    let table = LeanAirDedicatedHashTable::build(k, shape, codewords);
    let root = table.commitments.commitment_root;
    let public = public_scalars(&table);
    let global_n_vars = public[5].as_u32() as usize;
    let mut source = Source::new(&public);
    let log_rows = table.padded_rows().trailing_zeros() as usize;
    let challenges = challenges_from(&mut source, log_rows, row_coefficient_alpha(k, shape, root));
    let point: Vec<EF> = (0..log_rows).map(|_| source.next()).collect();
    let ProverValues { run, polys, .. } = prove_claims(k, &table, &challenges, &point, 2).unwrap();
    Proved {
        challenges,
        point,
        run,
        polys,
        global: global_polynomial(&table),
        root,
        global_n_vars,
        rows: table.padded_rows(),
    }
}

fn reversed(point: &[EF]) -> Vec<EF> {
    point.iter().rev().copied().collect()
}

fn combined(ch: &Challenges, run: &SessionRun) -> EF {
    run.air_sum.add(ch.eta.mul(run.cell_link_sum)).add(ch.eta.square().mul(run.linear_sum))
}

/// The verifier, up to the statements that the commitment is opened for.
fn verify(k: &PoseidonConstants, shape: LeanAirShape, proved: &Proved) -> Result<Vec<SparseStatement>, ProofError> {
    verify_claims(k, shape, proved.root, &proved.challenges, &proved.polys, &proved.point, &proved.run.col_evals)
}

fn holds(statement: &SparseStatement, global: &[F]) -> bool {
    let weights = eval_eq(&statement.point);
    statement.values.iter().all(|v| {
        let part = &global[v.selector * weights.len()..];
        let value = weights.iter().zip(part).fold(EF::zero(), |acc, (w, x)| acc.add(w.scale(*x)));
        value == v.value
    })
}

#[test]
fn proves_and_verifies_direct_poseidon_air() {
    let k = constants();
    let shape = LeanAirShape::with_cell_len(6, 4, 8);
    let codewords = deterministic_codewords(shape);
    let proved = prove(&k, shape, &codewords);
    let statements = verify(&k, shape, &proved).unwrap();
    assert_eq!(statements.len(), 9);
    assert!(statements.iter().all(|s| holds(s, &proved.global)));

    let raw = RawProof {
        transcript: vec![F::one(); 3],
        merkle_openings: vec![MerkleOpening { leaf_data: vec![F::one(); 4], path: vec![[F::zero(); 8]; 2] }],
    };
    let verified = verified_metadata(shape, proved.root, &raw);
    assert_eq!(verified.shape, shape);
    assert_eq!(verified.commitment_root, proved.root);
    assert_eq!(verified.poseidon_columns, DEDICATED_HASH_NUM_COLS);
    assert_eq!(verified.proof_size_fe, 3 + 4 + 16);
    assert_eq!(1usize << verified.poseidon_log_rows, proved.rows);
}

#[test]
fn rejects_wrong_public_root() {
    let k = constants();
    let shape = LeanAirShape::with_cell_len(6, 4, 8);
    let codewords = deterministic_codewords(shape);
    let proved = prove(&k, shape, &codewords);
    let mut wrong_root = proved.root;
    wrong_root[0] = wrong_root[0].add(F::one());
    let natural = reversed(&proved.point);
    let statements = whir_statements_from_public(
        shape,
        proved.rows,
        proved.global_n_vars,
        &natural,
        &proved.run.col_evals,
        wrong_root,
    );
    assert!(statements.iter().any(|s| !holds(s, &proved.global)));
    assert!(!holds(&statements[1], &proved.global));

    // The verifier draws its challenges after it has seen the root, so the rounds of the proof fail.
    let table = LeanAirDedicatedHashTable::build(&k, shape, &codewords);
    let public =
        public_scalars_from_shape(shape, wrong_root, proved.rows, DEDICATED_HASH_NUM_COLS, proved.global_n_vars);
    let mut source = Source::new(&public);
    let ch = challenges_from(&mut source, proved.point.len(), row_coefficient_alpha(&k, shape, wrong_root));
    let point: Vec<EF> = (0..proved.point.len()).map(|_| source.next()).collect();
    assert!(matches!(
        verify_claims(&k, shape, wrong_root, &ch, &proved.polys, &point, &proved.run.col_evals),
        Err(ProofError::InvalidProof)
    ));

    // A prover that follows these challenges gets as far as the statement on the first element of
    // the root, which the table does not meet.
    let values = prove_claims(&k, &table, &ch, &point, 2).unwrap();
    let statements =
        verify_claims(&k, shape, wrong_root, &ch, &values.polys, &point, &values.run.col_evals).unwrap();
    for (i, statement) in statements.iter().enumerate() {
        assert_eq!(holds(statement, &proved.global), i != 1);
    }
    let claimed = values.run.combined_value(ch.eta);
    let checked = check_claims(&k, shape, wrong_root, &ch, &point, claimed, &values.run.col_evals).unwrap();
    assert!(!holds(&checked[1], &proved.global));
}

#[test]
fn row_coefficient_alpha_is_bound_to_public_root_and_shape() {
    let k = constants();
    let shape = LeanAirShape::with_cell_len(6, 4, 8);
    let table = LeanAirDedicatedHashTable::build(&k, shape, &deterministic_codewords(shape));
    let alpha = row_coefficient_alpha(&k, shape, table.commitments.commitment_root);

    let mut other_root = table.commitments.commitment_root;
    other_root[0] = other_root[0].add(F::one());
    assert_ne!(alpha, row_coefficient_alpha(&k, shape, other_root));
    assert_ne!(
        alpha,
        row_coefficient_alpha(
            &k,
            LeanAirShape::with_cell_len(shape.log_m, shape.n_rows + 1, shape.cell_len_ext),
            table.commitments.commitment_root,
        )
    );
}

#[test]
fn rejects_non_codeword_rows() {
    let k = constants();
    let shape = LeanAirShape::with_cell_len(6, 4, 8);
    let mut codewords = deterministic_codewords(shape);
    codewords[0][0] = codewords[0][0].add(EF::one());

    let proved = prove(&k, shape, &codewords);
    assert!(matches!(verify(&k, shape, &proved), Err(ProofError::InvalidProof)));
    assert!(check_round(&proved.polys[0], EF::zero()).is_err());
}

#[test]
fn every_round_leaves_the_sum_of_the_next() {
    let k = constants();
    let shape = LeanAirShape::with_cell_len(3, 3, 8);
    let proved = prove(&k, shape, &deterministic_codewords(shape));
    let n = proved.point.len();
    let half = EF::from_base(F::new(2).inverse());
    for i in 0..n {
        let round = &proved.run.rounds[i];
        let alpha = proved.challenges.eq_point[n - 1 - i];
        let ends = |p: &DensePolynomial, a: EF| {
            EF::one().sub(a).mul(p.evaluate(EF::zero())).add(a.mul(p.evaluate(EF::one())))
        };
        assert_eq!(ends(&round.air, alpha), round.air_sum);
        assert_eq!(ends(&round.cell_link, half), round.cell_link_sum);
        assert_eq!(ends(&round.linear, half), round.linear_sum);
        let r = proved.point[i];
        let step = |a: EF| EF::one().sub(a).mul(EF::one().sub(r)).add(a.mul(r));
        let (air, cell, linear) = if i + 1 < n {
            let next = &proved.run.rounds[i + 1];
            (next.air_sum, next.cell_link_sum, next.linear_sum)
        } else {
            (proved.run.air_sum, proved.run.cell_link_sum, proved.run.linear_sum)
        };
        assert_eq!(round.air.evaluate(r).mul(step(alpha)), air);
        assert_eq!(round.cell_link.evaluate(r).mul(step(half)), cell);
        assert_eq!(round.linear.evaluate(r).mul(step(half)), linear);
    }
}

#[test]
fn a_changed_value_is_refused() {
    let k = constants();
    let shape = LeanAirShape::with_cell_len(3, 2, 8);
    let proved = prove(&k, shape, &deterministic_codewords(shape));
    let natural = reversed(&proved.point);
    let ch = &proved.challenges;
    let expected = expected_combined_final_value(&k, shape, ch, &natural, &proved.point, &proved.run.col_evals);
    assert_eq!(combined(ch, &proved.run), expected);
    let wrong = expected.add(EF::one());
    assert_eq!(
        check_final_value(&k, shape, ch, &natural, &proved.point, &proved.run.col_evals, wrong),
        Err(ProofError::InvalidProof)
    );
    let mut evals = proved.run.col_evals.clone();
    evals[5] = evals[5].add(EF::one());
    assert!(check_final_value(&k, shape, ch, &natural, &proved.point, &evals, expected).is_err());
}

#[test]
fn no_sessions_inside_the_domain() {
    let k = constants();
    let shape = LeanAirShape::with_cell_len(3, 2, 8);
    assert!(barycentric_slices(shape.log_m, EF::one()).is_none());
    assert!(barycentric_slices(shape.log_m, EF::from_base(F::new(3))).is_some());
    let table = LeanAirDedicatedHashTable::build(&k, shape, &deterministic_codewords(shape));
    let log_rows = table.padded_rows().trailing_zeros() as usize;
    let x = EF::from_base(F::new(5));
    let mut challenges = Challenges {
        eq_point: vec![x; log_rows],
        air_alpha: x,
        row_coeff_alpha: x,
        parity_point: EF::one(),
        cell_link_point: x,
        link_point: x,
        link_mix: x,
        eta: x,
    };
    assert!(open_sessions(&k, &table, &challenges, 2).is_none());
    challenges.parity_point = EF::from_base(F::new(3));
    challenges.eq_point[0] = EF::zero();
    let sessions = open_sessions(&k, &table, &challenges, 2).unwrap();
    assert!(run_sessions(&k, sessions, &vec![x; log_rows]).is_none());
}

#[test]
fn positions_hold_the_coefficients() {
    let k = constants();
    let shape = LeanAirShape::with_cell_len(4, 3, 8);
    let codewords = deterministic_codewords(shape);
    let table = LeanAirDedicatedHashTable::build(&k, shape, &codewords);
    for row in 0..3 {
        for term in 0..32 {
            for limb in 0..5 {
                let (hash_row, offset) = codeword_limb_position(shape, row, term, limb);
                assert_eq!(
                    table.columns[DEDICATED_HASH_INPUT_START + offset][hash_row],
                    codewords[row][term].limb(limb)
                );
            }
        }
    }
}

#[test]
fn configurations_follow_the_size() {
    let base = WhirConfigBuilder {
        rs_domain_initial_reduction_factor: 5,
        max_num_variables_to_send_coeffs: 9,
        folding_first: 7,
        folding_subsequent: 4,
    };
    // 92 columns of 512 rows are 2^16 values.
    let tuned = default_lean_air_whir_config(base, LeanAirShape::with_cell_len(6, 4, 8));
    assert_eq!(tuned.folding_first, 8);
    assert_eq!(tuned.folding_subsequent, 5);
    assert_eq!(tuned.max_num_variables_to_send_coeffs, 7);
    let wide = WhirConfigBuilder { rs_domain_initial_reduction_factor: 40, ..base };
    assert_eq!(default_lean_air_whir_config(wide, LeanAirShape::with_cell_len(6, 4, 8)), wide);
}

#[test]
fn claims_pass_from_prover_to_verifier() {
    let k = constants();
    let shape = LeanAirShape::with_cell_len(3, 2, 8);
    let table = LeanAirDedicatedHashTable::build(&k, shape, &deterministic_codewords(shape));
    let root = table.commitments.commitment_root;
    let mut source = Source::new(&public_scalars(&table));
    let log_rows = table.padded_rows().trailing_zeros() as usize;
    let mut ch = challenges_from(&mut source, log_rows, row_coefficient_alpha(&k, shape, root));
    let point: Vec<EF> = (0..log_rows).map(|_| source.next()).collect();

    let values = prove_claims(&k, &table, &ch, &point, 2).unwrap();
    let claimed = values.run.combined_value(ch.eta);
    assert_eq!(claimed, combined(&ch, &values.run));
    let statements = check_claims(&k, shape, root, &ch, &point, claimed, &values.run.col_evals).unwrap();
    let global = global_polynomial(&table);
    assert_eq!(statements.len(), values.statements.len());
    for (mine, sent) in statements.iter().zip(&values.statements) {
        assert_eq!(mine.point, sent.point);
        assert_eq!(mine.total_num_variables, sent.total_num_variables);
        assert!(holds(mine, &global));
    }
    let wrong = claimed.add(EF::one());
    assert!(check_claims(&k, shape, root, &ch, &point, wrong, &values.run.col_evals).is_err());

    ch.parity_point = EF::one();
    assert!(prove_claims(&k, &table, &ch, &point, 2).is_none());
    ch.parity_point = EF::from_base(F::new(3));
    ch.eq_point[1] = EF::zero();
    assert!(prove_claims(&k, &table, &ch, &point, 2).is_none());
}

#[test]
fn sums_over_the_table_vanish_on_codewords_only() {
    let k = constants();
    let shape = LeanAirShape::with_cell_len(3, 2, 8);
    let codewords = deterministic_codewords(shape);
    let table = LeanAirDedicatedHashTable::build(&k, shape, &codewords);
    let mut source = Source::new(&public_scalars(&table));
    let rows = table.padded_rows();
    let log_rows = rows.trailing_zeros() as usize;
    let ch = challenges_from(
        &mut source,
        log_rows,
        row_coefficient_alpha(&k, shape, table.commitments.commitment_root),
    );
    let alphas = extra_data_for_air(ch.air_alpha);
    let cell_columns = cell_link_column_indexes();
    let cell_coefficients = cell_link_dense_coefficients(shape, rows, ch.cell_link_point);
    let link_columns = link_column_indexes();
    let mixed = mixed_coefficients(shape, rows, &ch).unwrap();
    for (slot, column) in link_columns.iter().enumerate() {
        assert_eq!(link_column_slot(*column), slot);
    }
    assert_eq!(weighted_air_sum(&k, &table, &ch.eq_point, &alphas), EF::zero());
    assert_eq!(dense_linear_sum(&table, &cell_columns, &cell_coefficients), EF::zero());
    assert_eq!(sparse_linear_sum(&table, &link_columns, &mixed), EF::zero());

    let mut word = codewords.clone();
    word[0][0] = word[0][0].add(EF::one());
    let changed = LeanAirDedicatedHashTable::build(&k, shape, &word);
    assert_eq!(weighted_air_sum(&k, &changed, &ch.eq_point, &alphas), EF::zero());
    assert_eq!(dense_linear_sum(&changed, &cell_columns, &cell_coefficients), EF::zero());
    assert_ne!(sparse_linear_sum(&changed, &link_columns, &mixed), EF::zero());

    let mut broken = LeanAirDedicatedHashTable::build(&k, shape, &codewords);
    broken.columns[0][0] = broken.columns[0][0].add(F::one());
    assert_ne!(weighted_air_sum(&k, &broken, &ch.eq_point, &alphas), EF::zero());
    let mut broken = LeanAirDedicatedHashTable::build(&k, shape, &codewords);
    let output = cell_columns[0];
    broken.columns[output][0] = broken.columns[output][0].add(F::one());
    assert_ne!(dense_linear_sum(&broken, &cell_columns, &cell_coefficients), EF::zero());
}

#[test]
fn a_changed_word_fails_the_parity_check() {
    let log_m = 3;
    let shape = LeanAirShape::with_cell_len(log_m, 2, 8);
    let word = deterministic_codewords(shape)[1].clone();
    let passes = |word: &[EF], point: EF| {
        let (left, right) = barycentric_slices(log_m, point).unwrap();
        let side = |weights: &[EF], offset: usize| {
            (0..weights.len()).fold(EF::zero(), |acc, j| acc.add(weights[j].mul(word[2 * j + offset])))
        };
        side(&left, 0) == side(&right, 1)
    };
    let points: Vec<EF> = (0..8).map(|i| EF::from_base(F::new(3 + i))).collect();
    assert!(points.iter().all(|p| passes(&word, *p)));
    for i in 0..word.len() {
        let mut changed = word.clone();
        changed[i] = changed[i].add(EF::one());
        assert!(points.iter().any(|p| !passes(&changed, *p)));
    }
}

#[test]
fn a_false_sum_moves_its_round() {
    let k = constants();
    let shape = LeanAirShape::with_cell_len(3, 2, 8);
    let proved = prove(&k, shape, &deterministic_codewords(shape));
    let n = proved.point.len();
    let alpha = proved.challenges.eq_point[n - 1];
    let round = &proved.run.rounds[0];
    let raised = |p: &DensePolynomial| {
        let mut coeffs = p.coeffs.clone();
        coeffs[0] = coeffs[0].add(EF::one());
        DensePolynomial { coeffs }
    };
    let lie = SessionRound {
        air: raised(&round.air),
        cell_link: raised(&round.cell_link),
        linear: raised(&round.linear),
        air_sum: round.air_sum.add(EF::one()),
        cell_link_sum: round.cell_link_sum.add(EF::one()),
        linear_sum: round.linear_sum.add(EF::one()),
    };
    assert!(round.check(alpha) && lie.check(alpha));
    for i in 0..10 {
        let x = EF::from_base(F::new(i));
        assert_ne!(lie.air.evaluate(x), round.air.evaluate(x));
        assert_ne!(lie.cell_link.evaluate(x), round.cell_link.evaluate(x));
        assert_ne!(lie.linear.evaluate(x), round.linear.evaluate(x));
    }
}

#[test]
fn degrees_are_those_of_the_constraints() {
    let k = constants();
    let shape = LeanAirShape::with_cell_len(3, 2, 8);
    let table = LeanAirDedicatedHashTable::build(&k, shape, &deterministic_codewords(shape));
    let mut source = Source::new(&[]);
    let log_rows = table.padded_rows().trailing_zeros() as usize;
    let ch = challenges_from(&mut source, log_rows, EF::one());
    let sessions = open_sessions(&k, &table, &ch, 2).unwrap();
    assert_eq!(sessions.air.bare_degree(), 9);
    assert_eq!(sessions.cell_link.bare_degree(), 2);
    assert_eq!(sessions.linear.bare_degree(), 2);
    assert!(LeanAirDedicatedHashAir.down_column_indexes().is_empty());
}

#[test]
fn rounds_are_checked_one_by_one() {
    let k = constants();
    let shape = LeanAirShape::with_cell_len(3, 2, 8);
    let mut proved = prove(&k, shape, &deterministic_codewords(shape));
    let n = proved.point.len();
    let left = check_rounds(&proved.polys, &proved.point).unwrap();
    assert_eq!(left, proved.run.combined_value(proved.challenges.eta));
    for i in 0..n {
        let alpha = proved.challenges.eq_point[n - 1 - i];
        let sent = proved.run.rounds[i].combined(alpha, proved.challenges.eta);
        assert_eq!(sent.coeffs, proved.polys[i].coeffs);
        assert_eq!(sent.coeffs.len(), 11);
    }
    proved.polys[1].coeffs[2] = proved.polys[1].coeffs[2].add(EF::one());
    assert!(check_round(&proved.polys[0], EF::zero()).is_ok());
    assert_eq!(check_rounds(&proved.polys, &proved.point), Err(ProofError::InvalidProof));
    assert!(verify(&k, shape, &proved).is_err());

    // A polynomial of a higher degree is refused, whatever it adds up to.
    let long = DensePolynomial { coeffs: vec![EF::zero(); 12] };
    assert_eq!(check_round(&long, EF::zero()), Err(ProofError::InvalidProof));
    let short = DensePolynomial { coeffs: vec![EF::zero(); 11] };
    assert_eq!(check_round(&short, EF::zero()), Ok(()));
}

#[test]
fn codewords_agree_at_less_than_half_of_their_positions() {
    let mut source = Source::new(&[]);
    let message: Vec<EF> = (0..8).map(|_| source.next()).collect();
    let word = rs_encode(&message);
    assert_eq!(word.len(), 16);
    // The difference of the messages is `X^4 - 1`, which vanishes at the four fourth roots of one.
    let mut other = message.clone();
    other[0] = other[0].sub(EF::one());
    other[4] = other[4].add(EF::one());
    let agreeing: Vec<usize> = {
        let code = rs_encode(&other);
        (0..16).filter(|i| code[*i] == word[*i]).collect()
    };
    assert_eq!(agreeing, vec![0, 4, 8, 12]);
    for i in 0..8 {
        let mut other = message.clone();
        other[i] = other[i].add(EF::one());
        let code = rs_encode(&other);
        assert!((0..16).all(|j| code[j] != word[j]));
    }
}

#[test]
fn challenges_come_in_order() {
    let samples: Vec<EF> = (0..9).map(|i| EF::from_base(F::new(10 + i))).collect();
    let ch = Challenges::from_samples(&samples, 3, EF::from_base(F::new(7)));
    assert_eq!(ch.eq_point, samples[..3].to_vec());
    assert_eq!(ch.air_alpha, EF::from_base(F::new(13)));
    assert_eq!(ch.row_coeff_alpha, EF::from_base(F::new(7)));
    assert_eq!(ch.parity_point, EF::from_base(F::new(14)));
    assert_eq!(ch.cell_link_point, EF::from_base(F::new(15)));
    assert_eq!(ch.link_point, EF::from_base(F::new(16)));
    assert_eq!(ch.link_mix, EF::from_base(F::new(17)));
    assert_eq!(ch.eta, EF::from_base(F::new(18)));
}

#[test]
fn the_parity_sum_is_that_of_the_rows() {
    let k = constants();
    let shape = LeanAirShape::with_cell_len(3, 3, 8);
    let mut words = deterministic_codewords(shape);
    words[1][4] = words[1][4].add(EF::one());
    words[2][7] = words[2][7].sub(EF::from_base(F::new(9)));
    let table = LeanAirDedicatedHashTable::build(&k, shape, &words);
    let mut source = Source::new(&public_scalars(&table));
    let log_rows = table.padded_rows().trailing_zeros() as usize;
    let alpha = row_coefficient_alpha(&k, shape, table.commitments.commitment_root);
    let ch = challenges_from(&mut source, log_rows, alpha);
    let mixed = mixed_coefficients(shape, table.padded_rows(), &ch).unwrap();

    let (left, right) = barycentric_slices(shape.log_m, ch.parity_point).unwrap();
    let half = |weights: &[EF], word: &[EF], offset: usize| {
        (0..weights.len()).fold(EF::zero(), |acc, j| acc.add(weights[j].mul(word[2 * j + offset])))
    };
    let mut power = EF::one();
    let mut expected = EF::zero();
    for (row, word) in words.iter().enumerate() {
        let check = half(&left, word, 0).sub(half(&right, word, 1));
        assert_eq!(check == EF::zero(), row == 0);
        expected = expected.add(power.mul(check));
        power = power.mul(alpha);
    }
    assert_eq!(sparse_linear_sum(&table, &link_column_indexes(), &mixed), expected);
    assert_ne!(expected, EF::zero());
}

#[test]
fn constraints_leave_one_row_for_an_input() {
    let k = constants();
    let shape = LeanAirShape::with_cell_len(3, 2, 8);
    let table = LeanAirDedicatedHashTable::build(&k, shape, &deterministic_codewords(shape));
    let log_rows = table.padded_rows().trailing_zeros() as usize;
    let mut source = Source::new(&public_scalars(&table));
    let alphas = extra_data_for_air(source.next());
    let eq_point: Vec<EF> = (0..log_rows).map(|_| source.next()).collect();
    for column in 16..DEDICATED_HASH_NUM_COLS {
        let mut changed = LeanAirDedicatedHashTable::build(&k, shape, &deterministic_codewords(shape));
        changed.columns[column][1] = changed.columns[column][1].add(F::one());
        assert_ne!(weighted_air_sum(&k, &changed, &eq_point, &alphas), EF::zero());
    }
}

#[test]
fn links_leave_no_other_input() {
    let k = constants();
    let shape = LeanAirShape::with_cell_len(3, 2, 8);
    let words = deterministic_codewords(shape);
    let table = LeanAirDedicatedHashTable::build(&k, shape, &words);
    let rows = table.padded_rows();
    let mut source = Source::new(&public_scalars(&table));
    let ch = challenges_from(&mut source, rows.trailing_zeros() as usize, EF::from_base(F::new(3)));
    let mixed = mixed_coefficients(shape, rows, &ch).unwrap();
    let cells = cell_link_dense_coefficients(shape, rows, ch.cell_link_point);
    let last = table.active_rows() - 1;
    for column in 0..16 {
        let mut changed = LeanAirDedicatedHashTable::build(&k, shape, &words);
        changed.columns[column][last] = changed.columns[column][last].add(F::one());
        assert_ne!(sparse_linear_sum(&changed, &link_column_indexes(), &mixed), EF::zero());
    }
    for column in 0..8 {
        let mut changed = LeanAirDedicatedHashTable::build(&k, shape, &words);
        changed.columns[column][1] = changed.columns[column][1].add(F::one());
        assert_ne!(dense_linear_sum(&changed, &cell_link_column_indexes(), &cells), EF::zero());
    }
}

#[test]
fn the_table_holds_its_data_and_its_root() {
    let k = constants();
    let shape = LeanAirShape::with_cell_len(3, 2, 8);
    let words = deterministic_codewords(shape);
    let table = LeanAirDedicatedHashTable::build(&k, shape, &words);
    let chunks = 4;
    let cells = 2;
    for (row, word) in words.iter().enumerate() {
        let flat: Vec<F> = word.iter().flat_map(|x| (0..5).map(|limb| x.limb(limb))).collect();
        for (p, x) in flat.iter().enumerate() {
            let (cell, b) = (p / 40, p % 40);
            let (step, column) = if b < 16 { (0, b) } else { (1 + (b - 16) / 8, 8 + (b - 16) % 8) };
            assert_eq!(table.columns[column][(row * cells + cell) * chunks + step], *x);
        }
    }
    for limb in 0..8 {
        assert_eq!(table.columns[84 + limb][table.active_rows() - 1], table.commitments.commitment_root[limb]);
    }
}

#[test]
fn evaluations_are_those_of_the_columns() {
    let shape = LeanAirShape::with_cell_len(3, 3, 8);
    let mut source = Source::new(&[F::new(11)]);
    let rows = 101;
    let weights: Vec<EF> = (0..rows).map(|_| source.next()).collect();
    let (point, mix) = (source.next(), source.next());

    let before: Vec<EF> = (0..24).map(|_| source.next()).collect();
    let mut after = before.clone();
    add_link_coefficient_evals(&mut after, shape, point, mix, &weights);
    let columns = link_sparse_coefficients(shape, rows, point);
    for slot in 0..24 {
        let terms = columns[slot].iter().fold(EF::zero(), |sum, t| sum.add(t.coeff.mul(weights[t.row])));
        assert_ne!(terms, EF::zero());
        assert_eq!(after[slot], before[slot].add(mix.mul(terms)));
    }

    let before: Vec<EF> = (0..16).map(|_| source.next()).collect();
    let mut after = before.clone();
    add_cell_link_coefficient_evals(&mut after, shape, point, &weights);
    let columns = cell_link_dense_coefficients(shape, rows, point);
    for slot in 0..16 {
        let terms = columns[slot].iter().zip(&weights).fold(EF::zero(), |sum, (c, w)| sum.add(c.mul(*w)));
        assert_ne!(terms, EF::zero());
        assert_eq!(after[slot], before[slot].add(terms));
    }
}

#[test]
fn sessions_open_with_given_coefficients() {
    let k = constants();
    let shape = LeanAirShape::with_cell_len(3, 2, 8);
    let table = LeanAirDedicatedHashTable::build(&k, shape, &deterministic_codewords(shape));
    let rows = table.padded_rows();
    let log_rows = rows.trailing_zeros() as usize;
    let mut source = Source::new(&public_scalars(&table));
    let ch = challenges_from(&mut source, log_rows, EF::from_base(F::new(3)));
    let point: Vec<EF> = (0..log_rows).map(|_| source.next()).collect();
    let cells = cell_link_dense_coefficients(shape, rows, ch.cell_link_point);
    let mixed = mixed_coefficients(shape, rows, &ch).unwrap();
    let given = open_sessions_with(&k, &table, &ch, 1, cells, mixed);
    let own = open_sessions(&k, &table, &ch, 1).unwrap();
    assert_eq!(given.air.packing_log_width, 1);
    assert_eq!(given.air.current_unpadded_len, own.air.current_unpadded_len);
    assert!(given.air.current_unpadded_len >= table.active_rows());
    let (given, own) = (run_sessions(&k, given, &point).unwrap(), run_sessions(&k, own, &point).unwrap());
    assert_eq!(given.col_evals, own.col_evals);
    assert_eq!(given.linear_sum, own.linear_sum);
    assert_eq!(given.cell_link_sum, own.cell_link_sum);
}
