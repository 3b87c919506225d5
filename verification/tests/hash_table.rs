use leanda::ext::EF;
use leanda::field::F;
use leanda::lean_air::air::LeanAirDedicatedHashAir;
use leanda::lean_air::builder::{build_dedicated_commitments, BuildStage, CommitmentBuild};
use leanda::lean_air::hash_table::{deterministic_codewords, flatten_codewords, LeanAirDedicatedHashTable};
use leanda::lean_air::prover::can_prove;
use leanda::lean_air::schedule::{
    active_poseidon_rows_for_shape, poseidon_rows_for_shape, HashKind, HashSchedule, ScheduleRanges,
};
use leanda::lean_air::shape::LeanAirShape;
use leanda::poseidon::{
    compress, PoseidonConstants, DEDICATED_HASH_INPUT_START, DEDICATED_HASH_NUM_COLS, DEDICATED_HASH_OUTPUT_START,
    DIGEST_LEN, POSEIDON1_PARTIAL_ROUNDS,
};

fn constants() -> PoseidonConstants {
    let mut state: u64 = 0x9e37_79b9_7f4a_7c15;
    let mut next = move || {
        state = state.wrapping_mul(6364136223846793005).wrapping_add(1442695040888963407);
        F::from_u64(state >> 20)
    };
    let mut row = || -> [F; 16] { core::array::from_fn(|_| next()) };
    PoseidonConstants {
        initial: core::array::from_fn(|_| row()),
        ending: core::array::from_fn(|_| row()),
        mds: core::array::from_fn(|_| row()),
        sparse_first_round: row(),
        sparse_m_i: core::array::from_fn(|_| row()),
        sparse_first_row: core::array::from_fn(|_| row()),
        sparse_v: core::array::from_fn(|_| row()),
        sparse_scalar: {
            let a = row();
            let b = row();
            core::array::from_fn(|i| if i < 16 { a[i] } else { b[i - 16] })
        },
    }
}

fn input_at(table: &LeanAirDedicatedHashTable, row: usize) -> [F; 16] {
    core::array::from_fn(|i| table.columns[DEDICATED_HASH_INPUT_START + i][row])
}

#[test]
fn dedicated_hash_table_matches_native_outputs() {
    let k = constants();
    let shape = LeanAirShape::with_cell_len(4, 3, 8);
    let codewords = deterministic_codewords(shape);
    let table = LeanAirDedicatedHashTable::build(&k, shape, &codewords);

    assert_eq!(table.padded_rows(), 128);
    assert_eq!(table.committed_columns().len(), DEDICATED_HASH_NUM_COLS);

    for row in 0..table.active_rows() {
        let input = input_at(&table, row);
        let output = table.output_at(row);
        assert_eq!(compress(&k, input), output);
        for limb in 0..DIGEST_LEN {
            assert_eq!(table.columns[DEDICATED_HASH_OUTPUT_START + limb][row], output[limb]);
        }
    }

    for row in table.active_rows()..table.padded_rows() {
        let input = input_at(&table, row);
        assert_eq!(input, [F::zero(); 16]);
        assert_eq!(table.output_at(row), compress(&k, [F::zero(); 16]));
    }
}

#[test]
fn dedicated_hash_schedule_counts_construction_4_rows() {
    let shape = LeanAirShape::with_cell_len(4, 3, 8);
    let schedule = HashSchedule::new(shape);
    let mut expected = [0; HashKind::COUNT];
    expected[HashKind::Cell.as_index()] = 48;
    expected[HashKind::SystematicRow.as_index()] = 6;
    expected[HashKind::RowRoot.as_index()] = 3;
    expected[HashKind::ColumnMerkle.as_index()] = 12;
    expected[HashKind::ColumnRoot.as_index()] = 3;
    expected[HashKind::FinalRoot.as_index()] = 1;

    assert_eq!(schedule.counts_by_kind, expected);
    assert_eq!(schedule.active_rows, 73);
}

#[test]
fn poseidon_hash_root_changes_when_a_cell_changes() {
    let k = constants();
    let shape = LeanAirShape::with_cell_len(4, 3, 8);
    let mut codewords = deterministic_codewords(shape);
    let before = LeanAirDedicatedHashTable::build(&k, shape, &codewords);
    codewords[1][0] = codewords[1][0].add(EF::one());
    let after = LeanAirDedicatedHashTable::build(&k, shape, &codewords);

    assert_ne!(before.commitments.row_commitment_root, after.commitments.row_commitment_root);
    assert_ne!(before.commitments.column_commitment_root, after.commitments.column_commitment_root);
    assert_ne!(before.commitments.commitment_root, after.commitments.commitment_root);
}

#[test]
fn dedicated_hash_air_removes_leanvm_memory_columns() {
    let air = LeanAirDedicatedHashAir;

    assert_eq!(air.n_columns(), 92);
    assert_eq!(air.n_constraints(), 76);
    assert_eq!(air.degree_air(), 9);
    assert_eq!(air.low_degree_air(), Some((3, POSEIDON1_PARTIAL_ROUNDS)));
}

#[test]
fn constraints_vanish_on_trace_rows_only() {
    let k = constants();
    let shape = LeanAirShape::with_cell_len(3, 2, 8);
    let table = LeanAirDedicatedHashTable::build(&k, shape, &deterministic_codewords(shape));
    let air = LeanAirDedicatedHashAir;
    for row in 0..table.padded_rows() {
        let values: Vec<F> = (0..DEDICATED_HASH_NUM_COLS).map(|c| table.columns[c][row]).collect();
        let constraints = air.eval(&k, &values);
        assert_eq!(constraints.len(), 76);
        assert!(constraints.iter().all(|c| *c == F::zero()));
    }
    let mut values: Vec<F> = (0..DEDICATED_HASH_NUM_COLS).map(|c| table.columns[c][0]).collect();
    values[DEDICATED_HASH_OUTPUT_START] = values[DEDICATED_HASH_OUTPUT_START].add(F::one());
    assert!(air.eval(&k, &values).iter().any(|c| *c != F::zero()));
}

#[test]
fn shapes_are_checked() {
    assert!(LeanAirShape::checked(4, 3, 8).is_some());
    assert!(LeanAirShape::checked(4, 0, 8).is_none());
    assert!(LeanAirShape::checked(4, 3, 0).is_none());
    assert!(LeanAirShape::checked(4, 3, 3).is_none());
    assert!(LeanAirShape::checked(4, 3, 4).is_none());
    assert!(LeanAirShape::checked(64, 3, 8).is_none());
    assert!(LeanAirShape::with_cell_len(13, 101, 128).fits_machine());
    assert!(!LeanAirShape::with_cell_len(60, usize::MAX / 2, 8).fits_machine());
}

#[test]
fn rows_are_numbered_up_to_the_limits_of_the_machine() {
    // The base field elements of a codeword cannot be numbered, its hash rows can.
    let shape = LeanAirShape::with_cell_len(61, 1, 8);
    assert!(shape.fits_machine());
    assert!(!shape.data_fits_machine());
    let cells = 1usize << 59;
    let schedule = HashSchedule::new(shape);
    assert_eq!(schedule.counts_by_kind, [4 * cells, cells / 2, 1, 0, cells - 1, 1]);
    assert_eq!(schedule.active_rows, 5 * cells + cells / 2 + 1);
    assert_eq!(schedule.padded_rows, 1 << 62);
    assert_eq!(poseidon_rows_for_shape(shape), 1 << 62);

    // The hash rows can be numbered, the rows of the table cannot.
    let shape = LeanAirShape::with_cell_len(62, 2, 8);
    assert!(!shape.fits_machine());
    let cells = 1usize << 60;
    assert_eq!(active_poseidon_rows_for_shape(shape), 11 * cells + 2);
    let ranges = ScheduleRanges::new(shape);
    assert_eq!(ranges.systematic_row_start, 8 * cells);
    assert_eq!(ranges.final_root_row, 11 * cells + 1);
    assert!(LeanAirShape::with_cell_len(4, 3, 8).data_fits_machine());
}

#[test]
fn the_row_root_binds_to_the_first_half() {
    let k = constants();
    let shape = LeanAirShape::with_cell_len(4, 3, 8);
    let codewords = deterministic_codewords(shape);
    let before = LeanAirDedicatedHashTable::build(&k, shape, &codewords).commitments;
    for place in 0..32 {
        let mut changed = codewords.clone();
        changed[2][place] = changed[2][place].add(EF::one());
        let after = LeanAirDedicatedHashTable::build(&k, shape, &changed).commitments;
        assert_eq!(before.row_commitment_root != after.row_commitment_root, place < 16);
        assert_ne!(before.column_commitment_root, after.column_commitment_root);
        assert_ne!(before.commitment_root, after.commitment_root);
    }
}

#[test]
fn commitments_are_built_in_stages() {
    let k = constants();
    let shape = LeanAirShape::with_cell_len(4, 3, 8);
    let codewords = deterministic_codewords(shape);
    let data = flatten_codewords(&codewords);
    assert_eq!(data[1][7], codewords[1][1].c2);
    let mut build = CommitmentBuild::new(shape);
    let mut stages = Vec::new();
    while let Some(stage) = build.stage.name() {
        stages.push((stage, build.rows.len()));
        build.advance(&k, &data);
    }
    assert_eq!(
        stages,
        vec![
            ("build/hash_cells", 0),
            ("build/systematic_row_digests", 48),
            ("build/row_commitment_root", 54),
            ("build/column_merkle_roots", 57),
            ("build/column_commitment_root", 69),
            ("build/final_root", 72),
        ]
    );
    assert_eq!(build.stage, BuildStage::Done);
    build.advance(&k, &data);
    assert_eq!(build.rows.len(), 73);

    let table = LeanAirDedicatedHashTable::build(&k, shape, &codewords);
    let (commitments, rows) = build_dedicated_commitments(&k, shape, &data);
    assert_eq!(commitments, build.commitments);
    assert_eq!(commitments, table.commitments);
    let again = LeanAirDedicatedHashTable::from_rows(&k, shape, commitments, &rows);
    assert_eq!(again.columns, table.columns);
    assert_eq!(again.schedule.counts_by_kind, table.schedule.counts_by_kind);
}

#[test]
fn tables_are_checked() {
    let k = constants();
    let shape = LeanAirShape::with_cell_len(3, 2, 8);
    let codewords = deterministic_codewords(shape);
    let table = || LeanAirDedicatedHashTable::build(&k, shape, &codewords);
    assert!(can_prove(&table()));
    let mut changed = table();
    changed.columns[91][0] = changed.columns[91][0].add(F::one());
    assert!(can_prove(&changed));
    let mut changed = table();
    let last = changed.padded_rows() - 1;
    changed.columns[91][last] = changed.columns[91][last].add(F::one());
    assert!(!can_prove(&changed));
    let mut changed = table();
    changed.columns[3].pop();
    assert!(!can_prove(&changed));
    let mut changed = table();
    changed.columns.pop();
    assert!(!can_prove(&changed));
    let mut changed = table();
    changed.schedule.counts_by_kind[5] = 2;
    assert!(!can_prove(&changed));
    let mut changed = table();
    changed.schedule.active_rows += 1;
    assert!(!can_prove(&changed));
    let mut changed = table();
    changed.shape.n_rows = 0;
    assert!(!can_prove(&changed));
    let mut changed = table();
    changed.shape.log_m = 30;
    assert!(!can_prove(&changed));
}
