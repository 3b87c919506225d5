//! The table of hash rows.
use super::builder;
use super::commit;
use super::commit::LeanAirCommitments;
use super::schedule;
use super::schedule::HashSchedule;
use super::shape;
use super::shape::LeanAirShape;
use crate::arith;
use crate::ext::{DIMENSION, EF};
use crate::field::{F, TWO_ADICITY};
use crate::hashing;
use crate::ntt;
use crate::poseidon;
use crate::poseidon::{DedicatedPoseidonCols, PoseidonConstants, DEDICATED_HASH_NUM_COLS, DEDICATED_HASH_OUTPUT_START};
use vstd::arithmetic::power2::*;
use vstd::prelude::*;

verus! {

/// The coefficients of the elements of a codeword, one element after the other.
pub open spec fn flat(codeword: Seq<EF>) -> Seq<F> {
    Seq::new(5 * codeword.len(), |p: int| codeword[p / 5].limb_spec(p % 5))
}

/// The codewords as rows of base field elements.
pub open spec fn flat_data(codewords: Seq<Vec<EF>>) -> Seq<Seq<F>> {
    Seq::new(codewords.len(), |i: int| flat(codewords[i]@))
}

/// The input that pads the table.
pub open spec fn zero_input() -> Seq<F> {
    Seq::new(16, |i: int| F::zero_spec())
}

/// The input of row `row` of the table: that of the hash row, or zeros below the hash rows.
pub open spec fn table_input(k: PoseidonConstants, shape: LeanAirShape, data: Seq<Seq<F>>, row: int) -> Seq<F> {
    if row < shape.total_rows() {
        commit::row_input(k, shape, data, row)
    } else {
        zero_input()
    }
}

/// The value of the table in a column of a row.
pub open spec fn table_value(
    k: PoseidonConstants,
    shape: LeanAirShape,
    data: Seq<Seq<F>>,
    column: int,
    row: int,
) -> F {
    poseidon::trace_spec(k, table_input(k, shape, data, row))[column]
}

/// The table of hash rows that commits to a set of codewords.
#[derive(Clone, Debug)]
pub struct LeanAirDedicatedHashTable {
    pub shape: LeanAirShape,
    pub schedule: HashSchedule,
    pub commitments: LeanAirCommitments,
    pub columns: Vec<Vec<F>>,
}

/// The value of a column at a row of the table of hash rows: below them stands the trace of zeros.
pub open spec fn row_value(k: PoseidonConstants, rows: Seq<DedicatedPoseidonCols<F>>, c: int, i: int) -> F {
    if i < rows.len() {
        rows[i].values_spec()[c]
    } else {
        poseidon::trace_spec(k, zero_input())[c]
    }
}

impl LeanAirDedicatedHashTable {
    /// Whether the columns are as many and as long as they should be.
    pub open spec fn wf(self) -> bool {
        &&& self.columns@.len() == DEDICATED_HASH_NUM_COLS
        &&& forall|c: int|
            0 <= c < self.columns@.len() ==> (#[trigger] self.columns@[c])@.len() == self.schedule.padded_rows
    }

    /// Whether this is the table of the rows `data`.
    pub open spec fn holds(self, k: PoseidonConstants, shape: LeanAirShape, data: Seq<Seq<F>>) -> bool {
        &&& self.wf()
        &&& self.shape == shape
        &&& self.schedule.shape == shape
        &&& self.schedule.wf()
        &&& self.commitments.commits(k, shape, data)
        &&& forall|c: int, r: int|
            0 <= c < 92 && 0 <= r < shape.table_rows() ==> #[trigger] self.columns@[c]@[r] == table_value(
                k,
                shape,
                data,
                c,
                r,
            )
    }

    /// Builds the table of a set of codewords.
    pub fn build(k: &PoseidonConstants, shape: LeanAirShape, codewords: &Vec<Vec<EF>>) -> (r: LeanAirDedicatedHashTable)
        requires
            shape.valid(),
            shape.fits_data(),
            codewords@.len() == shape.n_rows,
            forall|i: int| 0 <= i < shape.n_rows ==> (#[trigger] codewords@[i])@.len() == shape.codeword_len(),
        ensures
            r.holds(*k, shape, flat_data(codewords@)),
    {
        let data = flatten_codewords(codewords);
        proof {
            assert forall|i: int| 0 <= i < shape.n_rows implies (#[trigger] data@[i])@.len() == 5
                * shape.codeword_len() by {
                assert(commit::data_views(data@)[i] == flat_data(codewords@)[i]);
            }
        }
        Self::build_from_data(k, shape, &data)
    }

    /// Builds the table of rows of base field elements.
    pub fn build_from_data(k: &PoseidonConstants, shape: LeanAirShape, data: &Vec<Vec<F>>) -> (r:
        LeanAirDedicatedHashTable)
        requires
            shape.valid(),
            shape.fits(),
            data@.len() == shape.n_rows,
            forall|i: int| 0 <= i < shape.n_rows ==> (#[trigger] data@[i])@.len() == 5 * shape.codeword_len(),
        ensures
            r.holds(*k, shape, commit::data_views(data@)),
    {
        proof {
            let _ = shape::lemma_shape(shape);
        }
        let (commitments, rows) = builder::build_dedicated_commitments(k, shape, data);
        let table = Self::from_rows(k, shape, commitments, &rows);
        proof {
            let d = commit::data_views(data@);
            assert forall|c: int, r: int|
                0 <= c < 92 && 0 <= r < shape.table_rows() implies #[trigger] table.columns@[c]@[r] == table_value(
                *k,
                shape,
                d,
                c,
                r,
            ) by {
                if r < shape.total_rows() {
                    assert(hashing::row_is(*k, rows@[r], commit::row_input(*k, shape, d, r)));
                }
            }
        }
        table
    }

    /// The table of hash rows, with rows of zeros compressed below them.
    pub fn from_rows(
        k: &PoseidonConstants,
        shape: LeanAirShape,
        commitments: LeanAirCommitments,
        rows: &Vec<DedicatedPoseidonCols<F>>,
    ) -> (r: LeanAirDedicatedHashTable)
        requires
            shape.valid(),
            shape.fits(),
            rows@.len() == shape.total_rows(),
        ensures
            r.shape == shape,
            r.schedule.shape == shape,
            r.schedule.wf(),
            r.commitments == commitments,
            r.columns@.len() == 92,
            forall|c: int| 0 <= c < 92 ==> (#[trigger] r.columns@[c])@.len() == shape.table_rows(),
            forall|c: int, i: int|
                0 <= c < 92 && 0 <= i < shape.table_rows() ==> #[trigger] r.columns@[c]@[i] == row_value(
                    *k,
                    rows@,
                    c,
                    i,
                ),
    {
        proof {
            let _ = shape::lemma_shape(shape);
            schedule::lemma_row_products(shape);
        }
        let sched = HashSchedule::new(shape);
        let zeros: [F; 16] = [F::zero(); 16];
        assert(zeros@ =~= zero_input());
        let padding_row = poseidon::dedicated_poseidon_trace(k, zeros);
        let padding = row_values(&padding_row);
        let mut columns: Vec<Vec<F>> = Vec::new();
        let mut c: usize = 0;
        while c < DEDICATED_HASH_NUM_COLS
            invariant
                c <= 92,
                columns@.len() == c,
                forall|m: int| 0 <= m < c ==> (#[trigger] columns@[m])@.len() == 0,
            decreases 92 - c,
        {
            let column: Vec<F> = Vec::new();
            columns.push(column);
            c = c + 1;
        }
        let mut r: usize = 0;
        while r < sched.padded_rows
            invariant
                sched.padded_rows == shape.table_rows(),
                r <= sched.padded_rows,
                padding@ == poseidon::trace_spec(*k, zero_input()),
                padding@.len() == 92,
                columns@.len() == 92,
                forall|m: int| 0 <= m < 92 ==> (#[trigger] columns@[m])@.len() == r,
                forall|m: int, i: int|
                    0 <= m < 92 && 0 <= i < r ==> #[trigger] columns@[m]@[i] == row_value(*k, rows@, m, i),
            decreases sched.padded_rows - r,
        {
            if r < rows.len() {
                let values = row_values(&rows[r]);
                push_row(&mut columns, &values, r, Ghost(|m: int, i: int| row_value(*k, rows@, m, i)));
            } else {
                push_row(&mut columns, &padding, r, Ghost(|m: int, i: int| row_value(*k, rows@, m, i)));
            }
            r = r + 1;
        }
        LeanAirDedicatedHashTable { shape, schedule: sched, commitments, columns }
    }

    /// The number of hash rows.
    pub fn active_rows(&self) -> (r: usize)
        ensures
            r == self.schedule.active_rows,
    {
        self.schedule.active_rows
    }

    /// The number of rows.
    pub fn padded_rows(&self) -> (r: usize)
        ensures
            r == self.schedule.padded_rows,
    {
        self.schedule.padded_rows
    }

    /// The columns.
    pub fn committed_columns(&self) -> (r: &Vec<Vec<F>>)
        ensures
            *r == self.columns,
    {
        &self.columns
    }

    /// The output digest of a row.
    pub fn output_at(&self, row: usize) -> (r: [F; 8])
        requires
            self.wf(),
            row < self.schedule.padded_rows,
        ensures
            forall|i: int| 0 <= i < 8 ==> #[trigger] r@[i] == self.columns@[DEDICATED_HASH_OUTPUT_START + i]@[row as int],
    {
        let mut out: [F; 8] = [F::zero(); 8];
        let mut i: usize = 0;
        while i < 8
            invariant
                i <= 8,
                self.wf(),
                row < self.schedule.padded_rows,
                forall|m: int|
                    0 <= m < i ==> #[trigger] out@[m] == self.columns@[DEDICATED_HASH_OUTPUT_START + m]@[row as int],
            decreases 8 - i,
        {
            out[i] = self.columns[DEDICATED_HASH_OUTPUT_START + i][row];
            i = i + 1;
        }
        out
    }
}

/// Adds one value to every column.
fn push_row(columns: &mut Vec<Vec<F>>, values: &Vec<F>, r: usize, Ghost(value): Ghost<spec_fn(int, int) -> F>)
    requires
        old(columns)@.len() == 92,
        values@.len() == 92,
        forall|m: int| 0 <= m < 92 ==> (#[trigger] old(columns)@[m])@.len() == r,
        forall|m: int| 0 <= m < 92 ==> values@[m] == #[trigger] value(m, r as int),
        forall|m: int, i: int| 0 <= m < 92 && 0 <= i < r ==> #[trigger] old(columns)@[m]@[i] == value(m, i),
    ensures
        final(columns)@.len() == 92,
        forall|m: int| 0 <= m < 92 ==> (#[trigger] final(columns)@[m])@.len() == r + 1,
        forall|m: int, i: int| 0 <= m < 92 && 0 <= i < r + 1 ==> #[trigger] final(columns)@[m]@[i] == value(m, i),
{
    let mut c: usize = 0;
    while c < 92
        invariant
            c <= 92,
            columns@.len() == 92,
            values@.len() == 92,
            forall|m: int| 0 <= m < 92 ==> values@[m] == #[trigger] value(m, r as int),
            forall|m: int| 0 <= m < c ==> (#[trigger] columns@[m])@.len() == r + 1,
            forall|m: int| c <= m < 92 ==> (#[trigger] columns@[m])@.len() == r,
            forall|m: int, i: int|
                0 <= m < 92 && 0 <= i < r ==> #[trigger] columns@[m]@[i] == value(m, i),
            forall|m: int| 0 <= m < c ==> #[trigger] columns@[m]@[r as int] == value(m, r as int),
        decreases 92 - c,
    {
        let ghost before = columns@;
        assert(values@[c as int] == value(c as int, r as int));
        columns[c].push(values[c]);
        assert forall|m: int, i: int| 0 <= m < 92 && 0 <= i < r implies #[trigger] columns@[m]@[i] == value(m, i) by {
            assert(before[m]@[i] == value(m, i));
        }
        c = c + 1;
    }
    assert forall|m: int, i: int| 0 <= m < 92 && 0 <= i < r + 1 implies #[trigger] columns@[m]@[i] == value(m, i) by {
        if i == r {
            assert(columns@[m]@[r as int] == value(m, r as int));
        }
    }
}

/// The values of a row, column by column.
pub fn row_values(row: &DedicatedPoseidonCols<F>) -> (r: Vec<F>)
    ensures
        r@ == row.values_spec(),
        r@.len() == DEDICATED_HASH_NUM_COLS,
{
    let mut out: Vec<F> = Vec::new();
    push_state(&mut out, &row.inputs);
    push_state(&mut out, &row.beginning_full_rounds[0]);
    push_state(&mut out, &row.beginning_full_rounds[1]);
    let ghost before = out@;
    let mut i: usize = 0;
    while i < 20
        invariant
            i <= 20,
            out@ == before + row.partial_rounds@.subrange(0, i as int),
        decreases 20 - i,
    {
        out.push(row.partial_rounds[i]);
        i = i + 1;
        assert(out@ =~= before + row.partial_rounds@.subrange(0, i as int));
    }
    push_state(&mut out, &row.ending_full_rounds[0]);
    let ghost before = out@;
    let mut i: usize = 0;
    while i < 8
        invariant
            i <= 8,
            out@ == before + row.outputs@.subrange(0, i as int),
        decreases 8 - i,
    {
        out.push(row.outputs[i]);
        i = i + 1;
        assert(out@ =~= before + row.outputs@.subrange(0, i as int));
    }
    assert(out@ =~= row.values_spec());
    out
}

fn push_state(out: &mut Vec<F>, state: &[F; 16])
    ensures
        final(out)@ == old(out)@ + state@,
{
    let ghost before = out@;
    let mut i: usize = 0;
    while i < 16
        invariant
            i <= 16,
            out@ == before + state@.subrange(0, i as int),
        decreases 16 - i,
    {
        out.push(state[i]);
        i = i + 1;
        assert(out@ =~= before + state@.subrange(0, i as int));
    }
    assert(out@ =~= before + state@);
}

/// The rows of base field elements of a set of codewords.
pub fn flatten_codewords(codewords: &Vec<Vec<EF>>) -> (r: Vec<Vec<F>>)
    requires
        forall|i: int| 0 <= i < codewords@.len() ==> 5 * (#[trigger] codewords@[i])@.len() <= usize::MAX,
    ensures
        commit::data_views(r@) == flat_data(codewords@),
        r@.len() == codewords@.len(),
{
    let mut data: Vec<Vec<F>> = Vec::new();
    let mut i: usize = 0;
    while i < codewords.len()
        invariant
            i <= codewords@.len(),
            forall|m: int| 0 <= m < codewords@.len() ==> 5 * (#[trigger] codewords@[m])@.len() <= usize::MAX,
            data@.len() == i,
            forall|m: int| 0 <= m < i ==> (#[trigger] data@[m])@ == flat(codewords@[m]@),
        decreases codewords@.len() - i,
    {
        let row = flatten_codeword(&codewords[i]);
        data.push(row);
        i = i + 1;
    }
    assert(commit::data_views(data@) =~= flat_data(codewords@));
    data
}

/// The coefficients of the elements of a codeword, one element after the other.
pub fn flatten_codeword(codeword: &Vec<EF>) -> (r: Vec<F>)
    requires
        5 * codeword@.len() <= usize::MAX,
    ensures
        r@ == flat(codeword@),
{
    let mut out: Vec<F> = Vec::new();
    let mut i: usize = 0;
    while i < codeword.len()
        invariant
            i <= codeword@.len(),
            out@.len() == 5 * i,
            forall|p: int| 0 <= p < 5 * i ==> #[trigger] out@[p] == codeword@[p / 5].limb_spec(p % 5),
        decreases codeword@.len() - i,
    {
        let mut limb: usize = 0;
        while limb < DIMENSION
            invariant
                i < codeword@.len(),
                limb <= 5,
                out@.len() == 5 * i + limb,
                forall|p: int| 0 <= p < 5 * i + limb ==> #[trigger] out@[p] == codeword@[p / 5].limb_spec(p % 5),
            decreases 5 - limb,
        {
            out.push(codeword[i].limb(limb));
            limb = limb + 1;
        }
        i = i + 1;
    }
    assert(out@ =~= flat(codeword@));
    out
}

/// Coefficient `limb` of element `col` of the deterministic message `row`.
pub open spec fn deterministic_limb(row: int, col: int, limb: int) -> F {
    F::of(1 + row * 1_000_003 + col * 97 + limb)
}

/// Element `col` of the deterministic message `row`.
pub open spec fn deterministic_ext_spec(row: int, col: int) -> EF {
    EF {
        c0: deterministic_limb(row, col, 0),
        c1: deterministic_limb(row, col, 1),
        c2: deterministic_limb(row, col, 2),
        c3: deterministic_limb(row, col, 3),
        c4: deterministic_limb(row, col, 4),
    }
}

/// The deterministic message `row`.
pub open spec fn deterministic_message(len: nat, row: int) -> Seq<EF> {
    Seq::new(len, |col: int| deterministic_ext_spec(row, col))
}

/// Element `col` of the deterministic message `row`.
pub fn deterministic_ext(row: usize, col: usize) -> (r: EF)
    requires
        5 + row * 1_000_003 + col * 97 <= usize::MAX,
    ensures
        r == deterministic_ext_spec(row as int, col as int),
{
    proof {
        assert(row * 1_000_003 >= 0 && col * 97 >= 0);
    }
    let base: usize = 1 + row * 1_000_003 + col * 97;
    EF {
        c0: F::from_usize(base),
        c1: F::from_usize(base + 1),
        c2: F::from_usize(base + 2),
        c3: F::from_usize(base + 3),
        c4: F::from_usize(base + 4),
    }
}

/// The codewords of the deterministic messages.
pub fn deterministic_codewords(shape: LeanAirShape) -> (r: Vec<Vec<EF>>)
    requires
        shape.log_m < TWO_ADICITY,
        5 + shape.n_rows * 1_000_003 + shape.message_len() * 97 <= usize::MAX,
    ensures
        r@.len() == shape.n_rows,
        forall|row: int|
            0 <= row < shape.n_rows ==> (#[trigger] r@[row])@ == ntt::codeword_spec(
                deterministic_message(shape.message_len(), row),
            ),
{
    let m: usize = shape.message_len_ext();
    let mut out: Vec<Vec<EF>> = Vec::new();
    let mut row: usize = 0;
    while row < shape.n_rows
        invariant
            row <= shape.n_rows,
            m == shape.message_len(),
            shape.log_m < TWO_ADICITY,
            5 + shape.n_rows * 1_000_003 + shape.message_len() * 97 <= usize::MAX,
            out@.len() == row,
            forall|i: int|
                0 <= i < row ==> (#[trigger] out@[i])@ == ntt::codeword_spec(
                    deterministic_message(shape.message_len(), i),
                ),
        decreases shape.n_rows - row,
    {
        let mut message: Vec<EF> = Vec::new();
        let mut col: usize = 0;
        while col < m
            invariant
                row < shape.n_rows,
                col <= m,
                m == shape.message_len(),
                5 + shape.n_rows * 1_000_003 + shape.message_len() * 97 <= usize::MAX,
                message@.len() == col,
                forall|i: int| 0 <= i < col ==> #[trigger] message@[i] == deterministic_ext_spec(row as int, i),
            decreases m - col,
        {
            message.push(deterministic_ext(row, col));
            col = col + 1;
        }
        assert(message@ =~= deterministic_message(shape.message_len(), row as int));
        proof {
            lemma_pow2_unfold((shape.log_m + 1) as nat);
            arith::lemma_pow2_monotone((shape.log_m + 1) as nat, TWO_ADICITY as nat);
        }
        let codeword = ntt::rs_encode(&message);
        out.push(codeword);
        row = row + 1;
    }
    out
}

} // verus!
