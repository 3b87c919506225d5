//! How many rows the tables of a shape have.
use super::schedule;
use super::schedule::{LeanAirHashSchedule, LeanAirTablePlan, PoseidonCallKind};
use super::shape::LeanAirShape;
use super::trace;
use super::trace::{LeanAirTrace, PoseidonCompressionEvent};
use crate::arith;
use crate::field::F;
use crate::lean_air::shape as air_shape;
use crate::poseidon::PoseidonConstants;
use vstd::arithmetic::power2::*;
use vstd::prelude::*;

verus! {

/// The sizes of the tables and of the memory of a shape.
#[derive(Clone, Copy, Debug, PartialEq, Eq)]
pub struct LeanAirCensus {
    pub shape: LeanAirShape,
    pub poseidon_calls_by_kind: [usize; 6],
    pub poseidon_rows: usize,
    pub poseidon_rows_padded: usize,
    pub control_rows: usize,
    pub control_rows_padded: usize,
    pub row_parity_rows: usize,
    pub row_parity_rows_padded: usize,
    pub duplicated_memory_fes: usize,
    pub shared_memory_fes_estimate: usize,
}

/// The sum of the counts of all kinds.
pub open spec fn total_calls(counts: Seq<usize>) -> int {
    counts[0] + counts[1] + counts[2] + counts[3] + counts[4] + counts[5]
}

/// The number of rows of the parity table.
pub open spec fn parity_rows(shape: LeanAirShape) -> int {
    shape.n_rows * pow2(shape.log_m as nat)
}

/// The elements of the codewords with one digest for each compression.
pub open spec fn shared_memory(shape: LeanAirShape, calls: int) -> int {
    shape.n_rows * (10 * pow2(shape.log_m as nat)) + calls * 8
}

/// What the limits of the machine ask of a census.
pub open spec fn census_fits(shape: LeanAirShape, calls: int) -> bool {
    &&& 10 * pow2(shape.log_m as nat) <= usize::MAX
    &&& arith::next_pow2((calls + 1) as nat) <= usize::MAX
    &&& arith::next_pow2((parity_rows(shape) + 1) as nat) <= usize::MAX
    &&& calls * 24 <= usize::MAX
    &&& shared_memory(shape, calls) <= usize::MAX
}

/// The number of hash rows of a kind.
pub open spec fn scheduled(shape: LeanAirShape, kind: PoseidonCallKind) -> int {
    let a = shape.air();
    match kind {
        PoseidonCallKind::CellHash => a.n_rows * a.cells() * a.chunks(),
        PoseidonCallKind::RowDigest => a.n_rows * a.systematic_cells(),
        PoseidonCallKind::RowRoot => a.n_rows as int,
        PoseidonCallKind::ColumnMerkle => a.cells() * (a.padded() - 1),
        PoseidonCallKind::ColumnRoot => a.cells() - 1,
        PoseidonCallKind::FinalRoot => 1,
    }
}

/// Whether the counts are those of the hash rows of a shape.
pub open spec fn counts_scheduled(shape: LeanAirShape, counts: Seq<usize>) -> bool {
    forall|kind: PoseidonCallKind| #[trigger] counts[kind.index()] == scheduled(shape, kind)
}

/// The number of the first `n` events that have a kind.
pub open spec fn count_kind(events: Seq<PoseidonCompressionEvent>, n: nat, kind: PoseidonCallKind) -> nat
    decreases n,
{
    if n == 0 {
        0
    } else {
        count_kind(events, (n - 1) as nat, kind) + if events[n - 1].kind == kind {
            1nat
        } else {
            0nat
        }
    }
}

/// The larger of two numbers.
pub open spec fn larger(a: int, b: int) -> int {
    if a < b {
        b
    } else {
        a
    }
}

fn max(a: usize, b: usize) -> (r: usize)
    ensures
        r == larger(a as int, b as int),
{
    if a < b {
        b
    } else {
        a
    }
}

impl LeanAirCensus {
    /// Whether this is the census of a shape with the given counts.
    pub open spec fn counts(self, shape: LeanAirShape, counts: Seq<usize>) -> bool {
        let calls = total_calls(counts);
        &&& self.shape == shape
        &&& self.poseidon_calls_by_kind@ == counts
        &&& self.poseidon_rows == calls
        &&& self.poseidon_rows_padded == arith::next_pow2((calls + 1) as nat)
        &&& self.control_rows == calls
        &&& self.control_rows_padded == arith::next_pow2((calls + 1) as nat)
        &&& self.row_parity_rows == parity_rows(shape)
        &&& self.row_parity_rows_padded == arith::next_pow2((parity_rows(shape) + 1) as nat)
        &&& self.duplicated_memory_fes == calls * 24
        &&& self.shared_memory_fes_estimate == shared_memory(shape, calls)
    }

    /// Whether the fields belong together.
    pub open spec fn wf(self) -> bool {
        self.counts(self.shape, self.poseidon_calls_by_kind@)
    }

    /// The rows of the three tables, as active rows.
    pub open spec fn total_active(self) -> int {
        self.poseidon_rows + self.control_rows + self.row_parity_rows
    }

    /// The rows of the three tables.
    pub open spec fn total_padded(self) -> int {
        self.poseidon_rows_padded + self.control_rows_padded + self.row_parity_rows_padded
    }

    /// The rows of the hash and the parity table.
    pub open spec fn fused_padded(self) -> int {
        self.poseidon_rows_padded + self.row_parity_rows_padded
    }

    /// The rows of the parity table over one combined row, padded.
    pub open spec fn rlc_padded(self) -> int {
        arith::next_pow2((pow2(self.shape.log_m as nat) + 1) as nat) as int
    }

    /// The number of compressions.
    pub fn poseidon_calls(&self) -> (r: usize)
        ensures
            r == self.poseidon_rows,
    {
        self.poseidon_rows
    }

    /// The rows of the largest of the three tables.
    pub fn max_table_rows_padded(&self) -> (r: usize)
        ensures
            r == larger(
                larger(self.poseidon_rows_padded as int, self.control_rows_padded as int),
                self.row_parity_rows_padded as int,
            ),
    {
        max(max(self.poseidon_rows_padded, self.control_rows_padded), self.row_parity_rows_padded)
    }

    /// The active rows of the three tables.
    pub fn total_active_table_rows(&self) -> (r: usize)
        requires
            self.total_active() <= usize::MAX,
        ensures
            r == self.total_active(),
    {
        self.poseidon_rows + self.control_rows + self.row_parity_rows
    }

    /// The rows of the three tables.
    pub fn total_padded_table_rows(&self) -> (r: usize)
        requires
            self.total_padded() <= usize::MAX,
        ensures
            r == self.total_padded(),
    {
        self.poseidon_rows_padded + self.control_rows_padded + self.row_parity_rows_padded
    }

    /// The active rows where the control table is fused into the hash table.
    pub fn fused_hash_active_table_rows(&self) -> (r: usize)
        requires
            self.poseidon_rows + self.row_parity_rows <= usize::MAX,
        ensures
            r == self.poseidon_rows + self.row_parity_rows,
    {
        self.poseidon_rows + self.row_parity_rows
    }

    /// The rows where the control table is fused into the hash table.
    pub fn fused_hash_padded_table_rows(&self) -> (r: usize)
        requires
            self.fused_padded() <= usize::MAX,
        ensures
            r == self.fused_padded(),
    {
        self.poseidon_rows_padded + self.row_parity_rows_padded
    }

    /// The rows of the three tables for every active row, in hundredths of a percent.
    pub fn padding_overhead_bps(&self) -> (r: usize)
        requires
            self.total_active() <= usize::MAX,
            self.total_padded() * 10_000 <= usize::MAX,
        ensures
            r == (self.total_padded() * 10_000) / larger(self.total_active(), 1),
    {
        self.total_padded_table_rows() * 10_000 / max(self.total_active_table_rows(), 1)
    }

    /// The fused rows for every active row, in hundredths of a percent.
    pub fn fused_hash_padding_overhead_bps(&self) -> (r: usize)
        requires
            self.poseidon_rows + self.row_parity_rows <= usize::MAX,
            self.fused_padded() * 10_000 <= usize::MAX,
        ensures
            r == (self.fused_padded() * 10_000) / larger(self.poseidon_rows + self.row_parity_rows, 1),
    {
        self.fused_hash_padded_table_rows() * 10_000 / max(self.fused_hash_active_table_rows(), 1)
    }

    /// The part of the rows that fusing saves, in hundredths of a percent.
    pub fn fused_hash_row_reduction_bps(&self) -> (r: usize)
        requires
            self.total_padded() <= usize::MAX,
            self.control_rows_padded * 10_000 <= usize::MAX,
        ensures
            r == (self.control_rows_padded * 10_000) / larger(self.total_padded(), 1),
    {
        (self.total_padded_table_rows() - self.fused_hash_padded_table_rows()) * 10_000 / max(
            self.total_padded_table_rows(),
            1,
        )
    }

    /// The number of cells of all rows.
    pub fn cell_digest_count(&self) -> (r: usize)
        requires
            self.shape.cell_len_ext > 0,
            2 * pow2(self.shape.log_m as nat) <= usize::MAX,
            (2 * pow2(self.shape.log_m as nat)) % (self.shape.cell_len_ext as nat) == 0,
            self.shape.n_rows * self.shape.air().cells() <= usize::MAX,
        ensures
            r == self.shape.n_rows * self.shape.air().cells(),
    {
        self.shape.n_rows * self.shape.num_cells()
    }

    /// The number of cells of all rows, those of the first half counted twice.
    pub fn digest_binding_entries(&self) -> (r: usize)
        requires
            self.shape.cell_len_ext > 0,
            2 * pow2(self.shape.log_m as nat) <= usize::MAX,
            (2 * pow2(self.shape.log_m as nat)) % (self.shape.cell_len_ext as nat) == 0,
            pow2(self.shape.log_m as nat) % (self.shape.cell_len_ext as nat) == 0,
            self.shape.n_rows * self.shape.air().cells() + self.shape.n_rows
                * self.shape.air().systematic_cells() <= usize::MAX,
        ensures
            r == self.shape.n_rows * self.shape.air().cells() + self.shape.n_rows
                * self.shape.air().systematic_cells(),
    {
        proof {
            let (n, c, s) = (self.shape.n_rows as int, self.shape.air().cells(), self.shape.air().systematic_cells());
            assert(n * c >= 0 && n * s >= 0) by (nonlinear_arith)
                requires
                    n >= 0,
                    c >= 0,
                    s >= 0,
            ;
        }
        self.cell_digest_count() + self.shape.n_rows * self.shape.num_systematic_cells()
    }

    /// The rows of the parity table over one combined row.
    pub fn materialized_rlc_parity_rows(&self) -> (r: usize)
        requires
            pow2(self.shape.log_m as nat) <= usize::MAX,
        ensures
            r == pow2(self.shape.log_m as nat),
    {
        self.shape.message_len_ext()
    }

    /// The rows of the parity table over one combined row, padded.
    pub fn materialized_rlc_parity_rows_padded(&self) -> (r: usize)
        requires
            self.rlc_padded() <= usize::MAX,
        ensures
            r == self.rlc_padded(),
    {
        proof {
            arith::lemma_next_pow2((pow2(self.shape.log_m as nat) + 1) as nat);
        }
        schedule::padded_table_rows(self.materialized_rlc_parity_rows())
    }

    /// The active rows where the rows are combined and the combination stands in a table.
    pub fn fused_hash_materialized_rlc_rows(&self) -> (r: usize)
        requires
            self.poseidon_rows + pow2(self.shape.log_m as nat) <= usize::MAX,
        ensures
            r == self.poseidon_rows + pow2(self.shape.log_m as nat),
    {
        self.poseidon_rows + self.materialized_rlc_parity_rows()
    }

    /// The rows where the rows are combined and the combination stands in a table.
    pub fn fused_hash_materialized_rlc_padded_rows(&self) -> (r: usize)
        requires
            self.poseidon_rows_padded + self.rlc_padded() <= usize::MAX,
        ensures
            r == self.poseidon_rows_padded + self.rlc_padded(),
    {
        self.poseidon_rows_padded + self.materialized_rlc_parity_rows_padded()
    }

    /// The rows where the combination stands in no table.
    pub fn fused_hash_virtual_rlc_padded_rows(&self) -> (r: usize)
        ensures
            r == self.poseidon_rows_padded,
    {
        self.poseidon_rows_padded
    }

    /// The part of the fused rows that the combination saves, in hundredths of a percent.
    pub fn materialized_rlc_row_reduction_bps(&self) -> (r: usize)
        requires
            self.rlc_padded() <= self.row_parity_rows_padded,
            self.fused_padded() * 10_000 <= usize::MAX,
        ensures
            r == ((self.row_parity_rows_padded - self.rlc_padded()) * 10_000) / larger(self.fused_padded(), 1),
    {
        (self.fused_hash_padded_table_rows() - self.fused_hash_materialized_rlc_padded_rows()) * 10_000 / max(
            self.fused_hash_padded_table_rows(),
            1,
        )
    }

    /// The part of the fused rows that no table at all saves, in hundredths of a percent.
    pub fn virtual_rlc_row_reduction_bps(&self) -> (r: usize)
        requires
            self.fused_padded() * 10_000 <= usize::MAX,
        ensures
            r == (self.row_parity_rows_padded * 10_000) / larger(self.fused_padded(), 1),
    {
        (self.fused_hash_padded_table_rows() - self.fused_hash_virtual_rlc_padded_rows()) * 10_000 / max(
            self.fused_hash_padded_table_rows(),
            1,
        )
    }
}

/// The census of a shape with the given counts.
pub fn census_from_counts(shape: LeanAirShape, poseidon_calls_by_kind: [usize; 6]) -> (r: LeanAirCensus)
    requires
        census_fits(shape, total_calls(poseidon_calls_by_kind@)),
    ensures
        r.counts(shape, poseidon_calls_by_kind@),
{
    let ghost calls = total_calls(poseidon_calls_by_kind@);
    let mut poseidon_rows: usize = poseidon_calls_by_kind[0];
    proof {
        let (n, m) = (shape.n_rows as int, pow2(shape.log_m as nat));
        assert(n * m >= 0 && n * (10 * m) >= 0) by (nonlinear_arith)
            requires
                n >= 0,
                m >= 0,
        ;
        arith::lemma_next_pow2((parity_rows(shape) + 1) as nat);
    }
    poseidon_rows = poseidon_rows + poseidon_calls_by_kind[1];
    poseidon_rows = poseidon_rows + poseidon_calls_by_kind[2];
    poseidon_rows = poseidon_rows + poseidon_calls_by_kind[3];
    poseidon_rows = poseidon_rows + poseidon_calls_by_kind[4];
    poseidon_rows = poseidon_rows + poseidon_calls_by_kind[5];
    let control_rows: usize = poseidon_rows;
    let row_parity_rows: usize = shape.n_rows * shape.message_len_ext();
    LeanAirCensus {
        shape,
        poseidon_calls_by_kind,
        poseidon_rows,
        poseidon_rows_padded: schedule::padded_table_rows(poseidon_rows),
        control_rows,
        control_rows_padded: schedule::padded_table_rows(control_rows),
        row_parity_rows,
        row_parity_rows_padded: schedule::padded_table_rows(row_parity_rows),
        duplicated_memory_fes: poseidon_rows * 3 * 8,
        shared_memory_fes_estimate: shape.n_rows * shape.codeword_len_base() + poseidon_rows * 8,
    }
}

/// The census of a shape, with the compressions of a trace counted.
pub fn air_census(shape: LeanAirShape, trace: &LeanAirTrace) -> (r: LeanAirCensus)
    requires
        census_fits(shape, trace.poseidon_calls@.len() as int),
    ensures
        r.wf(),
        r.shape == shape,
        forall|kind: PoseidonCallKind|
            #[trigger] r.poseidon_calls_by_kind@[kind.index()] == count_kind(
                trace.poseidon_calls@,
                trace.poseidon_calls@.len(),
                kind,
            ),
        r.poseidon_rows == trace.poseidon_calls@.len(),
{
    let ghost events = trace.poseidon_calls@;
    let mut counts: [usize; 6] = [0, 0, 0, 0, 0, 0];
    let mut i: usize = 0;
    while i < trace.poseidon_calls.len()
        invariant
            events == trace.poseidon_calls@,
            i <= events.len(),
            total_calls(counts@) == i,
            forall|kind: PoseidonCallKind|
                #[trigger] counts@[kind.index()] == count_kind(events, i as nat, kind),
        decreases events.len() - i,
    {
        let at: usize = trace.poseidon_calls[i].kind.as_index();
        let ghost before = counts@;
        assert(before[at as int] <= total_calls(before));
        counts[at] = counts[at] + 1;
        proof {
            let here = events[i as int].kind;
            assert forall|kind: PoseidonCallKind|
                #[trigger] counts@[kind.index()] == count_kind(events, (i + 1) as nat, kind) by {
                assert(before[kind.index()] == count_kind(events, i as nat, kind));
                assert(kind == here <==> kind.index() == here.index());
            }
        }
        i = i + 1;
    }
    census_from_counts(shape, counts)
}

/// The census that a trace of the shape has, from the shape alone.
pub fn estimate_air_census(shape: LeanAirShape) -> (r: LeanAirCensus)
    requires
        shape.air().valid(),
        shape.air().fits(),
        census_fits(shape, shape.air().total_rows()),
    ensures
        r.wf(),
        r.shape == shape,
        counts_scheduled(shape, r.poseidon_calls_by_kind@),
        r.poseidon_rows == shape.air().total_rows(),
{
    let plan = LeanAirHashSchedule::new(shape);
    let counts: [usize; 6] = [
        plan.cell_hash.len,
        plan.row_digest.len,
        plan.row_root.len,
        plan.column_merkle.len,
        plan.column_root.len,
        plan.final_root.len,
    ];
    proof {
        arith::lemma_next_pow2(shape.n_rows as nat);
        assert forall|kind: PoseidonCallKind| #[trigger] counts@[kind.index()] == scheduled(shape, kind) by {
        }
    }
    census_from_counts(shape, counts)
}

/// [`estimate_air_census`], where the shape is valid and the machine can hold its tables.
pub fn checked_air_census(shape: LeanAirShape) -> (r: Option<LeanAirCensus>)
    ensures
        r is Some <==> shape.air().valid() && shape.air().fits() && census_fits(shape, shape.air().total_rows()),
        r matches Some(census) ==> {
            &&& census.wf()
            &&& census.shape == shape
            &&& counts_scheduled(shape, census.poseidon_calls_by_kind@)
        },
{
    let air = match air_shape::LeanAirShape::checked(shape.log_m, shape.n_rows, shape.cell_len_ext) {
        Some(air) => air,
        None => {
            return None;
        },
    };
    if !air.fits_machine() {
        return None;
    }
    proof {
        arith::lemma_next_pow2((air.total_rows() + 1) as nat);
    }
    let calls: usize = LeanAirHashSchedule::new(shape).active_rows();
    let m: usize = shape.message_len_ext();
    let parity: usize = match shape.n_rows.checked_mul(m) {
        Some(x) => x,
        None => {
            proof {
                arith::lemma_next_pow2((parity_rows(shape) + 1) as nat);
            }
            return None;
        },
    };
    proof {
        arith::lemma_next_pow2((parity_rows(shape) + 1) as nat);
        let (n, m) = (shape.n_rows as int, pow2(shape.log_m as nat));
        assert(n * (10 * m) >= 0) by (nonlinear_arith)
            requires
                n >= 0,
                m >= 0,
        ;
    }
    if parity == usize::MAX || arith::checked_next_power_of_two(parity + 1).is_none() {
        return None;
    }
    if calls > usize::MAX / 24 || m > usize::MAX / 10 {
        return None;
    }
    let elements: usize = match shape.n_rows.checked_mul(shape.codeword_len_base()) {
        Some(x) => x,
        None => {
            return None;
        },
    };
    if elements.checked_add(calls * 8).is_none() {
        return None;
    }
    Some(estimate_air_census(shape))
}

/// The number of rows below `n` of a kind whose rows are those from `start` to `end`.
proof fn lemma_count_range(
    events: Seq<PoseidonCompressionEvent>,
    n: nat,
    kind: PoseidonCallKind,
    start: int,
    end: int,
)
    requires
        n <= events.len(),
        0 <= start <= end,
        forall|i: int|
            0 <= i < events.len() ==> ((#[trigger] events[i]).kind == kind <==> start <= i < end),
    ensures
        count_kind(events, n, kind) == if n <= start {
            0
        } else if n <= end {
            n - start
        } else {
            end - start
        },
    decreases n,
{
    if n > 0 {
        lemma_count_range(events, (n - 1) as nat, kind, start, end);
        assert(events[n - 1].kind == kind <==> start <= n - 1 < end);
    }
}

/// A trace has as many compressions of each kind as its shape says.
pub proof fn law_trace_has_scheduled_calls(
    k: PoseidonConstants,
    shape: LeanAirShape,
    data: Seq<Seq<F>>,
    events: Seq<PoseidonCompressionEvent>,
    kind: PoseidonCallKind,
)
    requires
        shape.air().valid(),
        trace::events_are(k, shape, data, events),
    ensures
        count_kind(events, events.len(), kind) == scheduled(shape, kind),
{
    let a = shape.air();
    let _ = air_shape::lemma_shape(a);
    arith::lemma_next_pow2(a.n_rows as nat);
    assert(a.n_rows as nat * a.cells() * a.chunks() >= 0) by (nonlinear_arith);
    assert(a.n_rows as nat * a.systematic_cells() >= 0) by (nonlinear_arith);
    assert(a.cells() * ((a.padded() - 1) as nat) >= 0) by (nonlinear_arith);
    let (start, end): (int, int) = match kind {
        PoseidonCallKind::CellHash => (0, a.systematic_start() as int),
        PoseidonCallKind::RowDigest => (a.systematic_start() as int, a.row_root_start() as int),
        PoseidonCallKind::RowRoot => (a.row_root_start() as int, a.column_merkle_start() as int),
        PoseidonCallKind::ColumnMerkle => (a.column_merkle_start() as int, a.column_root_start() as int),
        PoseidonCallKind::ColumnRoot => (a.column_root_start() as int, a.final_row()),
        PoseidonCallKind::FinalRoot => (a.final_row(), a.total_rows()),
    };
    assert forall|i: int| 0 <= i < events.len() implies ((#[trigger] events[i]).kind == kind <==> start <= i
        < end) by {
        assert(events[i].kind == schedule::kind_at(shape, i));
    }
    lemma_count_range(events, events.len(), kind, start, end);
}

/// Counting the compressions of a trace and estimating from its shape give the same census.
pub proof fn law_census_of_trace_is_estimate(
    k: PoseidonConstants,
    shape: LeanAirShape,
    data: Seq<Seq<F>>,
    events: Seq<PoseidonCompressionEvent>,
    counted: LeanAirCensus,
    estimated: LeanAirCensus,
)
    requires
        shape.air().valid(),
        trace::events_are(k, shape, data, events),
        counted.wf(),
        counted.shape == shape,
        forall|kind: PoseidonCallKind|
            #[trigger] counted.poseidon_calls_by_kind@[kind.index()] == count_kind(events, events.len(), kind),
        estimated.wf(),
        estimated.shape == shape,
        counts_scheduled(shape, estimated.poseidon_calls_by_kind@),
    ensures
        counted == estimated,
{
    let c = counted.poseidon_calls_by_kind;
    let e = estimated.poseidon_calls_by_kind;
    assert forall|kind: PoseidonCallKind| #[trigger] c@[kind.index()] == e@[kind.index()] by {
        law_trace_has_scheduled_calls(k, shape, data, events, kind);
    }
    assert(c@[PoseidonCallKind::CellHash.index()] == e@[0]);
    assert(c@[PoseidonCallKind::RowDigest.index()] == e@[1]);
    assert(c@[PoseidonCallKind::RowRoot.index()] == e@[2]);
    assert(c@[PoseidonCallKind::ColumnMerkle.index()] == e@[3]);
    assert(c@[PoseidonCallKind::ColumnRoot.index()] == e@[4]);
    assert(c@[PoseidonCallKind::FinalRoot.index()] == e@[5]);
    assert(c@ =~= e@);
    assert(c =~= e);
}

/// The census and the schedules of a shape speak of the same tables.
pub proof fn law_census_matches_schedules(shape: LeanAirShape, census: LeanAirCensus, plan: LeanAirTablePlan)
    requires
        shape.air().valid(),
        census.wf(),
        census.shape == shape,
        counts_scheduled(shape, census.poseidon_calls_by_kind@),
        plan.hash.wf(),
        plan.hash.shape == shape,
        plan.row_parity.wf(),
        plan.row_parity.shape == shape,
    ensures
        census.poseidon_rows == plan.hash.final_root.start + plan.hash.final_root.len,
        census.poseidon_rows_padded == plan.hash.padded_rows,
        census.row_parity_rows == plan.row_parity.active_rows,
        census.row_parity_rows_padded == plan.row_parity.padded_rows,
{
    let c = census.poseidon_calls_by_kind@;
    assert(c[PoseidonCallKind::CellHash.index()] == scheduled(shape, PoseidonCallKind::CellHash));
    assert(c[PoseidonCallKind::RowDigest.index()] == scheduled(shape, PoseidonCallKind::RowDigest));
    assert(c[PoseidonCallKind::RowRoot.index()] == scheduled(shape, PoseidonCallKind::RowRoot));
    assert(c[PoseidonCallKind::ColumnMerkle.index()] == scheduled(shape, PoseidonCallKind::ColumnMerkle));
    assert(c[PoseidonCallKind::ColumnRoot.index()] == scheduled(shape, PoseidonCallKind::ColumnRoot));
    assert(c[PoseidonCallKind::FinalRoot.index()] == scheduled(shape, PoseidonCallKind::FinalRoot));
    let a = shape.air();
    let _ = air_shape::lemma_shape(a);
    arith::lemma_next_pow2(a.n_rows as nat);
}

/// Each step of the design saves rows: fusing the control table, combining the rows, and keeping
/// the combination out of every table. Combining one row alone saves nothing.
pub proof fn law_designs_save_rows(census: LeanAirCensus)
    requires
        census.wf(),
        census.shape.n_rows > 0,
    ensures
        census.fused_padded() < census.total_padded(),
        census.rlc_padded() <= census.row_parity_rows_padded,
        census.shape.n_rows >= 2 ==> census.poseidon_rows_padded + census.rlc_padded() < census.fused_padded(),
        census.poseidon_rows_padded < census.poseidon_rows_padded + census.rlc_padded(),
{
    let shape = census.shape;
    let m: nat = pow2(shape.log_m as nat);
    let n: int = shape.n_rows as int;
    lemma_pow2_pos(shape.log_m as nat);
    assert(n * m >= m && (n >= 2 ==> n * m >= 2 * m)) by (nonlinear_arith)
        requires
            n >= 1,
            m >= 1,
    ;
    let calls = total_calls(census.poseidon_calls_by_kind@);
    arith::lemma_next_pow2((calls + 1) as nat);
    arith::lemma_next_pow2((m + 1) as nat);
    arith::lemma_next_pow2((n * m + 1) as nat);
    // The power above `m` is at most `2 * m`, and `n * m + 1` is above that.
    lemma_pow2_unfold(shape.log_m as nat + 1);
    arith::lemma_next_pow2_least((m + 1) as nat, shape.log_m as nat + 1);
    arith::lemma_next_pow2_monotone((m + 1) as nat, (n * m + 1) as nat);
}

} // verus!
