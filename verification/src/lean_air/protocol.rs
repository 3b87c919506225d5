//! The public data of a proof and the decisions of its prover and verifier.
use super::air;
use super::air::LeanAirDedicatedHashAir;
use super::commit;
use super::hash_table::LeanAirDedicatedHashTable;
use super::schedule;
use super::shape;
use super::shape::LeanAirShape;
use crate::arith;
use crate::ext::EF;
use crate::field;
use crate::field::{F, MODULUS};
use crate::mle;
use crate::poseidon;
use crate::poseidon::{PoseidonConstants, DEDICATED_HASH_NUM_COLS, DEDICATED_HASH_OUTPUT_START, DIGEST_LEN};
use vstd::arithmetic::power2::*;
use vstd::prelude::*;

verus! {

/// What a proof says of itself.
#[derive(Clone, Copy, Debug)]
pub struct LeanAirProofMetadata {
    pub shape: LeanAirShape,
    pub commitment_root: [F; 8],
    pub global_n_vars: usize,
    pub poseidon_log_rows: usize,
    pub poseidon_columns: usize,
    pub proof_size_fe: usize,
}

/// One opening of a Merkle tree: the values of the leaf and the digests on the way to the root.
#[derive(Clone, Debug)]
pub struct MerkleOpening {
    pub leaf_data: Vec<F>,
    pub path: Vec<[F; 8]>,
}

/// A proof as it is sent.
#[derive(Clone, Debug)]
pub struct RawProof {
    pub transcript: Vec<F>,
    pub merkle_openings: Vec<MerkleOpening>,
}

/// A proof with what it says of itself.
#[derive(Clone, Debug)]
pub struct LeanAirProof {
    pub proof: RawProof,
    pub metadata: LeanAirProofMetadata,
}

/// Why a proof is not accepted.
#[derive(Clone, Copy, Debug, PartialEq, Eq, Structural)]
pub enum ProofError {
    /// The values that the proof claims do not fit together.
    InvalidProof,
}

/// The challenges that prover and verifier draw before the sumcheck.
#[derive(Clone, Debug)]
pub struct Challenges {
    pub eq_point: Vec<EF>,
    pub air_alpha: EF,
    pub row_coeff_alpha: EF,
    pub parity_point: EF,
    pub cell_link_point: EF,
    pub link_point: EF,
    pub link_mix: EF,
    pub eta: EF,
}

/// How many challenges are drawn after the equality point.
pub const CHALLENGES_AFTER_EQ_POINT: usize = 6;

impl Challenges {
    /// The challenges that a transcript gives, in the order in which they are drawn: the equality
    /// point, and one each for the constraints, the parity check, the links of cells, the other
    /// links, their mix with the parity check, and the batch. The challenge on the rows comes from
    /// the public data.
    pub fn from_samples(samples: &Vec<EF>, log_rows: usize, row_coeff_alpha: EF) -> (r: Challenges)
        requires
            samples@.len() == log_rows + CHALLENGES_AFTER_EQ_POINT,
        ensures
            r.eq_point@ == samples@.take(log_rows as int),
            r.air_alpha == samples@[log_rows as int],
            r.row_coeff_alpha == row_coeff_alpha,
            r.parity_point == samples@[log_rows + 1],
            r.cell_link_point == samples@[log_rows + 2],
            r.link_point == samples@[log_rows + 3],
            r.link_mix == samples@[log_rows + 4],
            r.eta == samples@[log_rows + 5],
            r.eq_point@ + seq![
                r.air_alpha,
                r.parity_point,
                r.cell_link_point,
                r.link_point,
                r.link_mix,
                r.eta,
            ] == samples@,
    {
        let mut eq_point: Vec<EF> = Vec::new();
        let end: usize = samples.len();
        let mut i: usize = 0;
        while i < log_rows
            invariant
                i <= log_rows,
                log_rows + CHALLENGES_AFTER_EQ_POINT == samples@.len() == end,
                eq_point@ == samples@.take(i as int),
            decreases log_rows - i,
        {
            eq_point.push(samples[i]);
            i = i + 1;
            assert(eq_point@ =~= samples@.take(i as int));
        }
        Challenges {
            eq_point,
            air_alpha: samples[log_rows],
            row_coeff_alpha,
            parity_point: samples[log_rows + 1],
            cell_link_point: samples[log_rows + 2],
            link_point: samples[log_rows + 3],
            link_mix: samples[log_rows + 4],
            eta: samples[log_rows + 5],
        }
    }
}

/// The number of field elements of the first `n` openings.
pub open spec fn openings_size(openings: Seq<MerkleOpening>, n: nat) -> int
    decreases n,
{
    if n == 0 {
        0
    } else {
        openings_size(openings, (n - 1) as nat) + openings[n - 1].leaf_data@.len() + 8 * openings[n - 1].path@.len()
    }
}

proof fn lemma_openings_monotone(openings: Seq<MerkleOpening>, a: nat, b: nat)
    requires
        a <= b,
    ensures
        0 <= openings_size(openings, a) <= openings_size(openings, b),
    decreases b,
{
    if b > 0 {
        if a < b {
            lemma_openings_monotone(openings, a, (b - 1) as nat);
        } else {
            lemma_openings_monotone(openings, (a - 1) as nat, (b - 1) as nat);
        }
    }
}

impl RawProof {
    /// The number of field elements of the proof.
    pub open spec fn size(self) -> int {
        self.transcript@.len() + openings_size(self.merkle_openings@, self.merkle_openings@.len())
    }

    /// The number of field elements of the proof.
    pub fn proof_size_fe(&self) -> (r: usize)
        requires
            self.size() <= usize::MAX,
        ensures
            r == self.size(),
    {
        let mut size: usize = self.transcript.len();
        let mut i: usize = 0;
        let n: usize = self.merkle_openings.len();
        while i < n
            invariant
                i <= n,
                n == self.merkle_openings@.len(),
                self.size() <= usize::MAX,
                size == self.transcript@.len() + openings_size(self.merkle_openings@, i as nat),
            decreases n - i,
        {
            proof {
                lemma_openings_monotone(self.merkle_openings@, (i + 1) as nat, n as nat);
                lemma_openings_monotone(self.merkle_openings@, 0, i as nat);
            }
            let opening = &self.merkle_openings[i];
            let path: usize = opening.path.len() * DIGEST_LEN;
            size = size + opening.leaf_data.len() + path;
            i = i + 1;
        }
        size
    }
}

/// The powers of the batching challenge that combine the constraints.
pub fn extra_data_for_air(air_alpha: EF) -> (r: Vec<EF>)
    ensures
        r@.len() == 77,
        forall|i: int| 0 <= i < 77 ==> #[trigger] r@[i] == air_alpha.pow(i as nat),
{
    let air = LeanAirDedicatedHashAir;
    mle::powers(air_alpha, air.n_constraints() + 1)
}

/// The value at `index` of the polynomial that the prover commits to: the columns of the table one
/// after the other, then zeros.
pub open spec fn global_value(columns: Seq<Vec<F>>, rows: int, index: int) -> F {
    if 0 <= index < columns.len() * rows {
        columns[index / rows]@[index % rows]
    } else {
        F::zero_spec()
    }
}

/// The values of the polynomial that the prover commits to.
pub fn global_polynomial(table: &LeanAirDedicatedHashTable) -> (r: Vec<F>)
    requires
        table.wf(),
        table.schedule.padded_rows > 0,
        arith::next_pow2((92 * table.schedule.padded_rows) as nat) <= usize::MAX,
    ensures
        r@.len() == arith::next_pow2((92 * table.schedule.padded_rows) as nat),
        forall|i: int|
            0 <= i < r@.len() ==> #[trigger] r@[i] == global_value(
                table.columns@,
                table.schedule.padded_rows as int,
                i,
            ),
{
    let rows: usize = table.schedule.padded_rows;
    let ghost cols = table.columns@;
    proof {
        arith::lemma_next_pow2((92 * rows) as nat);
    }
    let actual: usize = DEDICATED_HASH_NUM_COLS * rows;
    let len: usize = arith::next_power_of_two(actual);
    let mut out: Vec<F> = Vec::new();
    let mut c: usize = 0;
    while c < DEDICATED_HASH_NUM_COLS
        invariant
            c <= 92,
            table.wf(),
            rows == table.schedule.padded_rows,
            rows > 0,
            cols == table.columns@,
            out@.len() == c * rows,
            forall|i: int| 0 <= i < out@.len() ==> #[trigger] out@[i] == global_value(cols, rows as int, i),
        decreases 92 - c,
    {
        let column = &table.columns[c];
        let mut i: usize = 0;
        while i < rows
            invariant
                i <= rows,
                c < 92,
                cols == table.columns@,
                cols.len() == 92,
                column@ == cols[c as int]@,
                column@.len() == rows,
                rows > 0,
                out@.len() == c * rows + i,
                forall|m: int| 0 <= m < out@.len() ==> #[trigger] out@[m] == global_value(cols, rows as int, m),
            decreases rows - i,
        {
            proof {
                commit::lemma_decode(c as int, i as int, rows as int);
                schedule::lemma_block_bound(c as int, 92, i as int, rows as int);
            }
            out.push(column[i]);
            i = i + 1;
        }
        proof {
            assert((c + 1) * rows == c * rows + rows) by (nonlinear_arith);
        }
        c = c + 1;
    }
    while out.len() < len
        invariant
            92 * rows <= out@.len() <= len,
            cols.len() == 92,
            forall|m: int| 0 <= m < out@.len() ==> #[trigger] out@[m] == global_value(cols, rows as int, m),
        decreases len - out@.len(),
    {
        out.push(F::zero());
    }
    out
}

/// The public data of a proof, which both sides absorb first.
pub open spec fn public_scalars_spec(
    shape: LeanAirShape,
    commitment_root: Seq<F>,
    poseidon_rows: int,
    poseidon_columns: int,
    global_n_vars: int,
) -> Seq<F> {
    seq![
        F::of(shape.log_m as int),
        F::of(shape.n_rows as int),
        F::of(shape.cell_len_ext as int),
        F::of(poseidon_rows),
        F::of(poseidon_columns),
        F::of(global_n_vars),
    ] + commitment_root
}

/// The public data of a proof.
pub fn public_scalars_from_shape(
    shape: LeanAirShape,
    commitment_root: [F; 8],
    poseidon_rows: usize,
    poseidon_columns: usize,
    global_n_vars: usize,
) -> (r: Vec<F>)
    ensures
        r@ == public_scalars_spec(
            shape,
            commitment_root@,
            poseidon_rows as int,
            poseidon_columns as int,
            global_n_vars as int,
        ),
{
    let mut out: Vec<F> = Vec::new();
    out.push(F::from_usize(shape.log_m));
    out.push(F::from_usize(shape.n_rows));
    out.push(F::from_usize(shape.cell_len_ext));
    out.push(F::from_usize(poseidon_rows));
    out.push(F::from_usize(poseidon_columns));
    out.push(F::from_usize(global_n_vars));
    let ghost head = out@;
    let mut i: usize = 0;
    while i < DIGEST_LEN
        invariant
            i <= 8,
            head.len() == 6,
            out@ == head + commitment_root@.subrange(0, i as int),
        decreases 8 - i,
    {
        out.push(commitment_root[i]);
        i = i + 1;
        assert(out@ =~= head + commitment_root@.subrange(0, i as int));
    }
    assert(commitment_root@.subrange(0, 8) =~= commitment_root@);
    assert(out@ =~= public_scalars_spec(
        shape,
        commitment_root@,
        poseidon_rows as int,
        poseidon_columns as int,
        global_n_vars as int,
    ));
    out
}

/// The public data of the proof of a table.
pub fn public_scalars(table: &LeanAirDedicatedHashTable) -> (r: Vec<F>)
    requires
        table.wf(),
        table.schedule.padded_rows > 0,
        arith::next_pow2((92 * table.schedule.padded_rows) as nat) <= usize::MAX,
    ensures
        r@ == public_scalars_spec(
            table.shape,
            table.commitments.commitment_root@,
            table.schedule.padded_rows as int,
            92,
            arith::log2_ceil_spec((92 * table.schedule.padded_rows) as nat) as int,
        ),
        r@[3] == F::of(table.columns@[0]@.len() as int),
        r@[4] == F::of(table.columns@.len() as int),
        r@.skip(6) == table.commitments.commitment_root@,
{
    let rows: usize = table.schedule.padded_rows;
    proof {
        arith::lemma_next_pow2((92 * rows) as nat);
    }
    let n_vars: usize = arith::log2_ceil(DEDICATED_HASH_NUM_COLS * rows);
    let out = public_scalars_from_shape(
        table.shape,
        table.commitments.commitment_root,
        rows,
        table.columns.len(),
        n_vars,
    );
    assert(out@.skip(6) =~= table.commitments.commitment_root@);
    out
}

/// The input whose digest gives the challenge that combines the rows: a tag, the shape and the
/// commitment, then zeros.
pub open spec fn row_alpha_input(shape: LeanAirShape, commitment_root: Seq<F>) -> Seq<F> {
    Seq::new(
        16,
        |i: int|
            if i == 0 {
                F::of(0x1EADA1)
            } else if i == 1 {
                F::of(shape.log_m as int)
            } else if i == 2 {
                F::of(shape.n_rows as int)
            } else if i == 3 {
                F::of(shape.cell_len_ext as int)
            } else if i < 12 {
                commitment_root[i - 4]
            } else {
                F::zero_spec()
            },
    )
}

/// The challenge that a digest gives: the element with its first limbs as coefficients, or one where
/// they are all zero.
pub open spec fn challenge_of(digest: Seq<F>) -> EF {
    let alpha = EF { c0: digest[0], c1: digest[1], c2: digest[2], c3: digest[3], c4: digest[4] };
    if alpha == EF::zero_spec() {
        EF::one_spec()
    } else {
        alpha
    }
}

/// The challenge that combines the rows: that of the digest of the public data.
pub open spec fn row_alpha_spec(k: PoseidonConstants, shape: LeanAirShape, commitment_root: Seq<F>) -> EF {
    challenge_of(poseidon::compress_spec(k, row_alpha_input(shape, commitment_root)))
}

/// The challenge that combines the rows. It is drawn from the public commitment, which the last hash
/// row is constrained to give.
pub fn row_coefficient_alpha(k: &PoseidonConstants, shape: LeanAirShape, commitment_root: [F; 8]) -> (r: EF)
    ensures
        r == row_alpha_spec(*k, shape, commitment_root@),
        r != EF::zero_spec(),
{
    let mut input: [F; 16] = [F::zero(); 16];
    input[0] = F::new(0x1EADA1);
    input[1] = F::from_usize(shape.log_m);
    input[2] = F::from_usize(shape.n_rows);
    input[3] = F::from_usize(shape.cell_len_ext);
    let mut i: usize = 0;
    while i < DIGEST_LEN
        invariant
            i <= 8,
            forall|m: int|
                0 <= m < 16 && !(4 + i <= m < 12) ==> #[trigger] input@[m] == row_alpha_input(
                    shape,
                    commitment_root@,
                )[m],
        decreases 8 - i,
    {
        input[4 + i] = commitment_root[i];
        i = i + 1;
    }
    assert(input@ =~= row_alpha_input(shape, commitment_root@));
    let digest = poseidon::compress(k, input);
    let alpha = EF { c0: digest[0], c1: digest[1], c2: digest[2], c3: digest[3], c4: digest[4] };
    proof {
        field::lemma_of_val(0);
        field::lemma_of_val(1);
        assert(F::of(0).val() != F::of(1).val());
    }
    if alpha == EF::zero() {
        EF::one()
    } else {
        alpha
    }
}

/// The challenge that combines the rows is drawn from all of the public data: what is hashed
/// determines the shape and the commitment. The dimensions are those that the field can hold.
pub proof fn law_row_challenge_binds(a: LeanAirShape, b: LeanAirShape, root_a: Seq<F>, root_b: Seq<F>)
    requires
        a.log_m < MODULUS,
        a.n_rows < MODULUS,
        a.cell_len_ext < MODULUS,
        b.log_m < MODULUS,
        b.n_rows < MODULUS,
        b.cell_len_ext < MODULUS,
        root_a.len() == 8,
        root_b.len() == 8,
        row_alpha_input(a, root_a) == row_alpha_input(b, root_b),
    ensures
        a == b,
        root_a == root_b,
{
    let x = row_alpha_input(a, root_a);
    let y = row_alpha_input(b, root_b);
    assert(x[1] == F::of(a.log_m as int) && y[1] == F::of(b.log_m as int));
    assert(x[2] == F::of(a.n_rows as int) && y[2] == F::of(b.n_rows as int));
    assert(x[3] == F::of(a.cell_len_ext as int) && y[3] == F::of(b.cell_len_ext as int));
    field::lemma_of_val(a.log_m as int);
    field::lemma_of_val(b.log_m as int);
    field::lemma_of_val(a.n_rows as int);
    field::lemma_of_val(b.n_rows as int);
    field::lemma_of_val(a.cell_len_ext as int);
    field::lemma_of_val(b.cell_len_ext as int);
    assert forall|i: int| 0 <= i < 8 implies #[trigger] root_a[i] == root_b[i] by {
        assert(x[i + 4] == root_a[i] && y[i + 4] == root_b[i]);
    }
    assert(root_a =~= root_b);
}

/// One value that a statement claims, by the selector of the part of the polynomial that takes it.
#[derive(Clone, Copy, Debug)]
pub struct SparseValue {
    pub selector: usize,
    pub value: EF,
}

/// A statement on a polynomial: each part that a selector picks takes the value at the point.
#[derive(Clone, Debug)]
pub struct SparseStatement {
    pub total_num_variables: usize,
    pub point: Vec<EF>,
    pub values: Vec<SparseValue>,
}

impl SparseStatement {
    /// Whether the statement holds of the polynomial with the values `g`.
    pub open spec fn holds(self, g: spec_fn(int) -> EF) -> bool {
        forall|i: int|
            0 <= i < self.values@.len() ==> mle::mle_at(
                |j: int| g((#[trigger] self.values@[i]).selector * pow2(self.point@.len()) + j),
                self.point@,
            ) == self.values@[i].value
    }

    /// The statement that the polynomial takes a value at an index.
    pub fn unique_value(total_num_variables: usize, index: usize, value: EF) -> (r: SparseStatement)
        ensures
            r.total_num_variables == total_num_variables,
            r.point@.len() == 0,
            r.values@ == seq![SparseValue { selector: index, value }],
    {
        let mut values: Vec<SparseValue> = Vec::new();
        values.push(SparseValue { selector: index, value });
        SparseStatement { total_num_variables, point: Vec::new(), values }
    }
}

/// The statements that open the commitment: the values of the columns at the point of the sumcheck,
/// and the commitment as the output of the last hash row.
pub open spec fn statements_spec(
    shape: LeanAirShape,
    poseidon_rows: int,
    global_n_vars: int,
    natural_point: Seq<EF>,
    col_evals: Seq<EF>,
    commitment_root: Seq<F>,
    statements: Seq<SparseStatement>,
) -> bool {
    &&& statements.len() == 9
    &&& forall|i: int| 0 <= i < 9 ==> (#[trigger] statements[i]).total_num_variables == global_n_vars
    &&& statements[0].point@ == natural_point
    &&& statements[0].values@ == Seq::new(
        col_evals.len(),
        |c: int| SparseValue { selector: c as usize, value: col_evals[c] },
    )
    &&& forall|limb: int|
        0 <= limb < 8 ==> (#[trigger] statements[1 + limb]).point@.len() == 0 && statements[1 + limb].values@.len() == 1
            && statements[1 + limb].values@[0].selector == (84 + limb) * poseidon_rows + shape.final_row()
            && statements[1 + limb].values@[0].value == EF::from_base_spec(commitment_root[limb])
}

/// The statements that open the commitment.
pub fn whir_statements_from_public(
    shape: LeanAirShape,
    poseidon_rows: usize,
    global_n_vars: usize,
    natural_point: &Vec<EF>,
    col_evals: &Vec<EF>,
    commitment_root: [F; 8],
) -> (r: Vec<SparseStatement>)
    requires
        shape.valid(),
        shape.fits_rows(),
        92 * poseidon_rows <= usize::MAX,
        poseidon_rows >= shape.total_rows(),
    ensures
        statements_spec(
            shape,
            poseidon_rows as int,
            global_n_vars as int,
            natural_point@,
            col_evals@,
            commitment_root@,
            r@,
        ),
{
    let mut statements: Vec<SparseStatement> = Vec::new();
    let point = mle::copied(natural_point);
    let mut values: Vec<SparseValue> = Vec::new();
    let mut c: usize = 0;
    while c < col_evals.len()
        invariant
            c <= col_evals@.len(),
            values@ == Seq::new(c as nat, |c: int| SparseValue { selector: c as usize, value: col_evals@[c] }),
        decreases col_evals@.len() - c,
    {
        values.push(SparseValue { selector: c, value: col_evals[c] });
        c = c + 1;
        assert(values@ =~= Seq::new(
            c as nat,
            |c: int| SparseValue { selector: c as usize, value: col_evals@[c] },
        ));
    }
    statements.push(SparseStatement { total_num_variables: global_n_vars, point, values });
    let ghost first = statements@[0];
    proof {
        let _ = shape::lemma_shape(shape);
        schedule::lemma_row_products_valid(shape);
    }
    let final_row: usize = schedule::active_poseidon_rows_for_shape(shape) - 1;
    let mut limb: usize = 0;
    while limb < DIGEST_LEN
        invariant
            limb <= 8,
            92 * poseidon_rows <= usize::MAX,
            poseidon_rows >= shape.total_rows(),
            final_row == shape.final_row(),
            statements@.len() == 1 + limb,
            statements@[0] == first,
            first.total_num_variables == global_n_vars,
            forall|i: int|
                0 <= i < 1 + limb ==> (#[trigger] statements@[i]).total_num_variables == global_n_vars,
            forall|m: int|
                0 <= m < limb ==> (#[trigger] statements@[1 + m]).point@.len() == 0 && statements@[1
                    + m].values@.len() == 1 && statements@[1 + m].values@[0].selector == (84 + m) * poseidon_rows
                    + shape.final_row() && statements@[1 + m].values@[0].value == EF::from_base_spec(
                    commitment_root@[m],
                ),
        decreases 8 - limb,
    {
        let column: usize = DEDICATED_HASH_OUTPUT_START + limb;
        proof {
            assert(column * poseidon_rows + poseidon_rows <= 92 * poseidon_rows) by (nonlinear_arith)
                requires
                    column + 1 <= 92,
            ;
        }
        statements.push(
            SparseStatement::unique_value(
                global_n_vars,
                column * poseidon_rows + final_row,
                EF::from_base(commitment_root[limb]),
            ),
        );
        limb = limb + 1;
    }
    statements
}

/// How the commitment scheme folds and where it stops.
#[derive(Clone, Copy, Debug, PartialEq, Eq, Structural)]
pub struct WhirConfigBuilder {
    pub rs_domain_initial_reduction_factor: usize,
    pub max_num_variables_to_send_coeffs: usize,
    pub folding_first: usize,
    pub folding_subsequent: usize,
}

/// The configuration for a polynomial in `global_n_vars` variables: where there are variables enough,
/// the first fold takes eight of them, or as many as leave five, and later folds five.
pub open spec fn tuned_config(config: WhirConfigBuilder, global_n_vars: int) -> WhirConfigBuilder {
    if global_n_vars > config.rs_domain_initial_reduction_factor + 5 {
        let wanted: int = if global_n_vars - 5 < 8 {
            global_n_vars - 5
        } else {
            8
        };
        let first: int = if wanted < config.rs_domain_initial_reduction_factor {
            config.rs_domain_initial_reduction_factor as int
        } else {
            wanted
        };
        let tail: int = global_n_vars - first;
        WhirConfigBuilder {
            rs_domain_initial_reduction_factor: config.rs_domain_initial_reduction_factor,
            max_num_variables_to_send_coeffs: (if tail - 1 < 12 {
                tail - 1
            } else {
                12
            }) as usize,
            folding_first: first as usize,
            folding_subsequent: 5,
        }
    } else {
        config
    }
}

/// The configuration for the table of a shape, from the default one.
pub fn default_lean_air_whir_config(base: WhirConfigBuilder, shape: LeanAirShape) -> (r: WhirConfigBuilder)
    requires
        shape.valid(),
        shape.fits(),
        92 * shape.table_rows() <= usize::MAX,
        base.rs_domain_initial_reduction_factor <= usize::MAX - 5,
    ensures
        r == tuned_config(base, arith::log2_ceil_spec(92 * shape.table_rows()) as int),
{
    let mut config = base;
    proof {
        let _ = shape::lemma_shape(shape);
        schedule::lemma_row_products_valid(shape);
    }
    let rows: usize = schedule::poseidon_rows_for_shape(shape);
    let global_n_vars: usize = arith::log2_ceil(DEDICATED_HASH_NUM_COLS * rows);
    let subsequent: usize = 5;
    if global_n_vars > config.rs_domain_initial_reduction_factor + subsequent {
        let room: usize = global_n_vars - subsequent;
        let wanted: usize = if room < 8 {
            room
        } else {
            8
        };
        let first: usize = if wanted < config.rs_domain_initial_reduction_factor {
            config.rs_domain_initial_reduction_factor
        } else {
            wanted
        };
        let tail_n_vars: usize = global_n_vars - first;
        config.max_num_variables_to_send_coeffs = if tail_n_vars - 1 < 12 {
            tail_n_vars - 1
        } else {
            12
        };
        config.folding_first = first;
        config.folding_subsequent = subsequent;
    }
    config
}

} // verus!
