use leanda::ext::EF;
use leanda::field::F;
use leanda::lean_da::census::{air_census, checked_air_census, estimate_air_census, LeanAirCensus};
use leanda::lean_da::schedule::{LeanAirTablePlan, PoseidonCallKind};
use leanda::lean_da::shape::LeanAirShape;
use leanda::lean_da::trace::{
    build_precompile_layout, build_trace_evens_then_odds, commit_codewords_evens_then_odds,
};
use leanda::lean_da::witness::{
    build_column_commit_public_input, build_instance, generate_codewords, log2_exact_power_of_two, replacements,
    sweep_shapes, Construction, DEFAULT_N_BLOBS, LOG_M,
};
use leanda::ntt::{rs_encode, two_adic_generator};
use leanda::poseidon::{compress, PoseidonConstants};

fn constants() -> PoseidonConstants {
    let mut state: u64 = 0x9e37_79b9_7f4a_7c15;
    let mut next = move || {
        state = state.wrapping_mul(6364136223846793005).wrapping_add(1442695040888963407);
        F::from_u64(state >> 20)
    };
    let mut row = || -> [F; 16] { core::array::from_fn(|_| next()) };
    PoseidonConstants {
        initial: core::array::from_fn(|_| row()),
        ending: core::array::from_fn(|_| row()),
        mds: core::array::from_fn(|_| row()),
        sparse_first_round: row(),
        sparse_m_i: core::array::from_fn(|_| row()),
        sparse_first_row: core::array::from_fn(|_| row()),
        sparse_v: core::array::from_fn(|_| row()),
        sparse_scalar: {
            let a = row();
            let b = row();
            core::array::from_fn(|i| if i < 16 { a[i] } else { b[i - 16] })
        },
    }
}

fn random_messages(n: usize, seed: u64) -> Vec<Vec<EF>> {
    let mut state = seed.wrapping_add(1);
    let mut next = move || {
        state = state.wrapping_mul(6364136223846793005).wrapping_add(1442695040888963407);
        F::from_u64(state >> 20)
    };
    (0..n)
        .map(|_| {
            (0..1usize << LOG_M)
                .map(|_| EF::from_basis_coefficients([next(), next(), next(), next(), next()]))
                .collect()
        })
        .collect()
}

fn random_codewords(n: usize) -> Vec<Vec<EF>> {
    generate_codewords(&random_messages(n, 0))
}

#[test]
fn test_column_commit_public_input_shape() {
    let codewords = random_codewords(DEFAULT_N_BLOBS);
    let (_witness, public_input) = build_instance(&constants(), &codewords, Construction::ColumnCommit);
    assert_eq!(public_input.len(), 8);
}

#[test]
fn test_lean_air_commitment_matches_column_commit_public_input() {
    let k = constants();
    let n_blobs = 3;
    let codewords = random_codewords(n_blobs);
    let expected = build_column_commit_public_input(&k, &codewords);
    let shape = LeanAirShape::new(LOG_M, n_blobs);
    let trace = build_trace_evens_then_odds(&k, shape, &codewords);
    let commitments = commit_codewords_evens_then_odds(&k, shape, &codewords);

    assert_eq!(commitments.commitment_root, expected);
    assert_eq!(commitments.row_digests.len(), n_blobs);
    assert_eq!(commitments.column_roots.len(), shape.num_cells());
    assert_eq!(trace.commitments, commitments);
    assert!(!trace.poseidon_calls.is_empty());
}

#[test]
fn test_lean_air_precompile_layout_matches_poseidon_events() {
    let k = constants();
    let n_blobs = 3;
    let codewords = random_codewords(n_blobs);
    let shape = LeanAirShape::new(LOG_M, n_blobs);
    let trace = build_trace_evens_then_odds(&k, shape, &codewords);
    let layout = build_precompile_layout(&trace, 1);

    assert_eq!(layout.poseidon_requests.len(), trace.poseidon_calls.len());
    for (request, call) in layout.poseidon_requests.iter().zip(&trace.poseidon_calls) {
        assert_eq!(layout.memory[request.left_ptr..request.left_ptr + 8], call.input[..8]);
        assert_eq!(layout.memory[request.right_ptr..request.right_ptr + 8], call.input[8..]);
        assert_eq!(layout.memory[request.result_ptr..request.result_ptr + 8], call.output);
    }
}

#[test]
fn test_lean_air_census_is_consistent() {
    let n_blobs = 3;
    let codewords = random_codewords(n_blobs);
    let shape = LeanAirShape::new(LOG_M, n_blobs);
    let trace = build_trace_evens_then_odds(&constants(), shape, &codewords);
    let census = air_census(shape, &trace);
    let estimate = estimate_air_census(shape);

    assert_eq!(census.poseidon_calls(), trace.poseidon_calls.len());
    assert_eq!(census, estimate);
    assert_eq!(census.poseidon_calls_by_kind.iter().sum::<usize>(), trace.poseidon_calls.len());
    assert_eq!(census.control_rows, trace.poseidon_calls.len());
    assert_eq!(census.row_parity_rows, n_blobs * (1 << LOG_M));
    assert_eq!(census.materialized_rlc_parity_rows(), 1 << LOG_M);
    assert!(census.fused_hash_materialized_rlc_padded_rows() < census.fused_hash_padded_table_rows());
    assert!(census.fused_hash_virtual_rlc_padded_rows() < census.fused_hash_materialized_rlc_padded_rows());
    assert!(census.fused_hash_padded_table_rows() < census.total_padded_table_rows());
    assert!(census.shared_memory_fes_estimate < census.duplicated_memory_fes);
}

#[test]
fn test_lean_air_schedules_are_consistent() {
    let n_blobs = 3;
    let shape = LeanAirShape { log_m: LOG_M, n_rows: n_blobs, cell_len_ext: 64 };
    let plan = LeanAirTablePlan::new(shape);
    let census = estimate_air_census(shape);

    assert_eq!(plan.hash.active_rows(), census.poseidon_rows);
    assert_eq!(plan.hash.padded_rows, census.poseidon_rows_padded);
    assert_eq!(plan.row_parity.active_rows, census.row_parity_rows);
    assert_eq!(plan.row_parity.padded_rows, census.row_parity_rows_padded);

    let first_hash = plan.hash.row_meta(0).unwrap();
    assert_eq!(first_hash.kind, PoseidonCallKind::CellHash);
    assert_eq!(first_hash.row_idx, Some(0));
    assert_eq!(first_hash.cell_idx, Some(0));
    assert_eq!(first_hash.chunk_idx, Some(0));

    let last_hash = plan.hash.row_meta(plan.hash.active_rows() - 1).unwrap();
    assert_eq!(last_hash.kind, PoseidonCallKind::FinalRoot);
    assert_eq!(plan.hash.row_meta(plan.hash.active_rows()), None);

    let first_parity = plan.row_parity.row_meta(0).unwrap();
    assert_eq!(first_parity.row_idx, 0);
    assert_eq!(first_parity.term_idx, 0);
    assert!(first_parity.is_first);
    assert!(!first_parity.is_last);

    let last_parity = plan.row_parity.row_meta(plan.row_parity.active_rows - 1).unwrap();
    assert_eq!(last_parity.row_idx, n_blobs - 1);
    assert_eq!(last_parity.term_idx, shape.message_len_ext() - 1);
    assert!(!last_parity.is_first);
    assert!(last_parity.is_last);
    assert_eq!(plan.row_parity.row_meta(plan.row_parity.active_rows), None);
}

#[test]
fn test_rs_encode_matches_naive() {
    let m: usize = 1 << LOG_M;
    let message = random_messages(1, 7).remove(0);
    let two_m = 2 * m;
    let w = two_adic_generator(two_m.trailing_zeros() as usize);
    let codeword = rs_encode(&message);
    let mut wj = F::one();
    let naive: Vec<EF> = (0..two_m)
        .map(|_| {
            let value = message.iter().rev().fold(EF::zero(), |acc, &c| acc.scale(wj).add(c));
            wj = wj.mul(w);
            value
        })
        .collect();
    assert_eq!(codeword, naive);
}

#[test]
fn every_row_is_described_once() {
    let shape = LeanAirShape { log_m: 4, n_rows: 3, cell_len_ext: 8 };
    let plan = LeanAirTablePlan::new(shape);
    let mut seen = Vec::new();
    let mut counts = [0; PoseidonCallKind::COUNT];
    for row in 0..plan.hash.active_rows() {
        let meta = plan.hash.row_meta(row).unwrap();
        assert!(!seen.contains(&meta));
        seen.push(meta);
        counts[meta.kind.as_index()] += 1;
    }
    assert_eq!(counts, [48, 6, 3, 12, 3, 1]);
    assert_eq!(counts, estimate_air_census(shape).poseidon_calls_by_kind);

    // The last node of a tree is its root.
    let merkle = plan.hash.row_meta(plan.hash.column_merkle.start + 2).unwrap();
    assert_eq!((merkle.cell_idx, merkle.layer_idx, merkle.node_idx), (Some(0), Some(1), Some(0)));
    let root = plan.hash.row_meta(plan.hash.column_root.end() - 1).unwrap();
    assert_eq!((root.layer_idx, root.node_idx), (Some(1), Some(0)));
    assert!(plan.hash.column_root.contains(plan.hash.column_root.start));
    assert!(!plan.hash.column_root.contains(plan.hash.column_root.end()));
}

#[test]
fn one_row_has_no_column_trees() {
    let shape = LeanAirShape { log_m: 4, n_rows: 1, cell_len_ext: 8 };
    let plan = LeanAirTablePlan::new(shape);
    assert_eq!(plan.hash.column_merkle.len, 0);
    let codewords = vec![rs_encode(&(0..16).map(|i| EF::from_base(F::from_usize(i))).collect())];
    let trace = build_trace_evens_then_odds(&constants(), shape, &codewords);
    assert_eq!(trace.poseidon_calls.len(), plan.hash.active_rows());
    assert_eq!(air_census(shape, &trace), estimate_air_census(shape));
}

#[test]
fn events_are_compressions_of_even_places_first() {
    let k = constants();
    let shape = LeanAirShape { log_m: 4, n_rows: 2, cell_len_ext: 8 };
    let codewords: Vec<Vec<EF>> = (0..2)
        .map(|r| rs_encode(&(0..16).map(|i| EF::from_base(F::from_usize(100 * r + i))).collect()))
        .collect();
    let trace = build_trace_evens_then_odds(&k, shape, &codewords);
    for event in &trace.poseidon_calls {
        assert_eq!(compress(&k, event.input), event.output);
    }
    // The first input starts with the elements zero, two, four and then the first limb of six.
    let first = trace.poseidon_calls[0].input;
    assert_eq!(first[0], codewords[0][0].c0);
    assert_eq!(first[5], codewords[0][2].c0);
    assert_eq!(first[10], codewords[0][4].c0);
    assert_eq!(first[15], codewords[0][6].c0);
    let last = trace.poseidon_calls.last().unwrap();
    assert_eq!(last.kind, PoseidonCallKind::FinalRoot);
    assert_eq!(last.output, trace.commitments.commitment_root);
}

#[test]
fn cells_are_counted_for_any_shape_that_they_divide() {
    let census = estimate_air_census(LeanAirShape { log_m: 4, n_rows: 3, cell_len_ext: 8 });
    let of = |shape: LeanAirShape| LeanAirCensus { shape, ..census };
    let none = of(LeanAirShape { log_m: 4, n_rows: 0, cell_len_ext: 8 });
    assert_eq!(none.cell_digest_count(), 0);
    assert_eq!(none.digest_binding_entries(), 0);
    let single = of(LeanAirShape { log_m: 4, n_rows: 3, cell_len_ext: 1 });
    assert_eq!(single.cell_digest_count(), 96);
    assert_eq!(single.digest_binding_entries(), 144);
    let whole = of(LeanAirShape { log_m: 4, n_rows: 3, cell_len_ext: 32 });
    assert_eq!(whole.cell_digest_count(), 3);
}

#[test]
fn census_figures() {
    let shape = LeanAirShape { log_m: 4, n_rows: 3, cell_len_ext: 8 };
    let census = estimate_air_census(shape);
    assert_eq!(census.poseidon_rows, 73);
    assert_eq!(census.poseidon_rows_padded, 128);
    assert_eq!(census.row_parity_rows, 48);
    assert_eq!(census.row_parity_rows_padded, 64);
    assert_eq!(census.max_table_rows_padded(), 128);
    assert_eq!(census.total_active_table_rows(), 194);
    assert_eq!(census.total_padded_table_rows(), 320);
    assert_eq!(census.fused_hash_active_table_rows(), 121);
    assert_eq!(census.fused_hash_padded_table_rows(), 192);
    assert_eq!(census.padding_overhead_bps(), 16494);
    assert_eq!(census.fused_hash_padding_overhead_bps(), 15867);
    assert_eq!(census.fused_hash_row_reduction_bps(), 4000);
    assert_eq!(census.cell_digest_count(), 12);
    assert_eq!(census.digest_binding_entries(), 18);
    assert_eq!(census.materialized_rlc_parity_rows(), 16);
    assert_eq!(census.materialized_rlc_parity_rows_padded(), 32);
    assert_eq!(census.fused_hash_materialized_rlc_rows(), 89);
    assert_eq!(census.fused_hash_materialized_rlc_padded_rows(), 160);
    assert_eq!(census.fused_hash_virtual_rlc_padded_rows(), 128);
    assert_eq!(census.materialized_rlc_row_reduction_bps(), 1666);
    assert_eq!(census.virtual_rlc_row_reduction_bps(), 3333);
    assert_eq!(census.duplicated_memory_fes, 1752);
    assert_eq!(census.shared_memory_fes_estimate, 3 * 160 + 584);
}

#[test]
fn census_of_bad_shapes_is_refused() {
    assert!(checked_air_census(LeanAirShape { log_m: 4, n_rows: 3, cell_len_ext: 8 }).is_some());
    assert!(checked_air_census(LeanAirShape { log_m: 4, n_rows: 0, cell_len_ext: 8 }).is_none());
    assert!(checked_air_census(LeanAirShape { log_m: 4, n_rows: 3, cell_len_ext: 5 }).is_none());
    assert!(checked_air_census(LeanAirShape { log_m: 13, n_rows: usize::MAX, cell_len_ext: 16 }).is_none());
}

#[test]
fn programs_and_their_numbers() {
    assert_eq!(Construction::Baseline.entry(), "lean_da.py");
    assert_eq!(Construction::ColumnCommit.entry(), "lean_da_column_commit.py");
    assert_eq!(Construction::Baseline.label(), "baseline");
    assert_eq!(Construction::ColumnCommit.label(), "column-commit");
    assert_eq!(log2_exact_power_of_two(8192), 13);
    let numbers = replacements(48);
    assert_eq!(numbers.log_m, 13);
    assert_eq!(numbers.n_blobs, 48);
    assert_eq!(numbers.n_blobs_padded, 64);
    assert_eq!(numbers.log_n_blobs_padded, 6);
    let shapes = sweep_shapes(5);
    assert_eq!(shapes.len(), 20);
    assert_eq!(shapes[7], LeanAirShape { log_m: 13, n_rows: 3, cell_len_ext: 32 });
    assert_eq!(shapes[19], LeanAirShape { log_m: 13, n_rows: 5, cell_len_ext: 128 });
}

#[test]
fn baseline_has_no_public_input() {
    let codewords = random_codewords(1);
    let (witness, public_input) = build_instance(&constants(), &codewords, Construction::Baseline);
    assert!(public_input.is_empty());
    assert_eq!(witness.preamble_memory_len, 0);
    assert_eq!(witness.codeword.len(), 1);
    assert_eq!(witness.codeword[0].len(), 2 * (1 << LOG_M) * 5);
    assert_eq!(witness.codeword[0][5], codewords[0][2].c0);
    assert_eq!(witness.codeword[0][5 * (1 << LOG_M)], codewords[0][1].c0);
}
