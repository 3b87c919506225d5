//! What the trace, its layout and its census add up to.
use super::census;
use super::census::LeanAirCensus;
use super::schedule;
use super::schedule::PoseidonCallKind;
use super::shape::LeanAirShape;
use super::trace;
use super::trace::{LeanAirPrecompileLayout, PoseidonCompressionEvent};
use super::witness;
use super::witness::LOG_M;
use crate::arith;
use crate::ext::EF;
use crate::lean_air::commit;
use crate::lean_air::hash_table;
use crate::lean_air::shape as air_shape;
use vstd::arithmetic::power2::*;
use vstd::prelude::*;

verus! {

/// The rows of the hash table come kind after kind, from the cells to the root, which is one row.
pub proof fn law_kinds_come_in_order(shape: LeanAirShape, i: int, j: int)
    requires
        shape.air().valid(),
        0 <= i <= j < shape.air().total_rows(),
    ensures
        schedule::kind_at(shape, i).index() <= schedule::kind_at(shape, j).index(),
        schedule::kind_at(shape, 0) is CellHash,
        schedule::kind_at(shape, i) is FinalRoot <==> i == shape.air().total_rows() - 1,
{
    let a = shape.air();
    let _ = air_shape::lemma_shape(a);
    arith::lemma_next_pow2(a.n_rows as nat);
    assert(a.n_rows as nat * a.cells() * a.chunks() > 0) by (nonlinear_arith)
        requires
            a.n_rows > 0,
            a.cells() > 0,
            a.chunks() > 0,
    ;
    assert(a.n_rows as nat * a.systematic_cells() >= 0) by (nonlinear_arith);
    assert(a.cells() * ((a.padded() - 1) as nat) >= 0) by (nonlinear_arith);
}

/// The memory of a layout holds the compressions one after the other: sixteen elements of input and, behind
/// them, eight of output, for each.
pub proof fn law_memory_holds_compressions(events: Seq<PoseidonCompressionEvent>, i: int)
    requires
        0 <= i < events.len(),
    ensures
        trace::memory_of(events).len() == 24 * events.len(),
        trace::memory_of(events).subrange(24 * i, 24 * i + 16) == events[i].input@,
        trace::memory_of(events).subrange(24 * i + 16, 24 * i + 24) == events[i].output@,
{
    let memory = trace::memory_of(events);
    assert forall|p: int| 0 <= p < 24 implies (#[trigger] memory[24 * i + p]) == (if p < 16 {
        events[i].input@[p]
    } else {
        events[i].output@[p - 16]
    }) by {
        assert((24 * i + p) / 24 == i && (24 * i + p) % 24 == p);
    }
    let (first, last) = (memory.subrange(24 * i, 24 * i + 16), memory.subrange(24 * i + 16, 24 * i + 24));
    assert forall|p: int| 0 <= p < 16 implies #[trigger] first[p] == events[i].input@[p] by {
        assert(first[p] == memory[24 * i + p]);
    }
    assert forall|p: int| 0 <= p < 8 implies #[trigger] last[p] == events[i].output@[p] by {
        assert(last[p] == memory[24 * i + (16 + p)]);
    }
    assert(first =~= events[i].input@);
    assert(last =~= events[i].output@);
}

/// Every compression is of one kind: those of the six kinds are all of them.
pub proof fn law_kinds_cover_trace(events: Seq<PoseidonCompressionEvent>, n: nat)
    requires
        n <= events.len(),
    ensures
        census::count_kind(events, n, PoseidonCallKind::CellHash) + census::count_kind(
            events,
            n,
            PoseidonCallKind::RowDigest,
        ) + census::count_kind(events, n, PoseidonCallKind::RowRoot) + census::count_kind(
            events,
            n,
            PoseidonCallKind::ColumnMerkle,
        ) + census::count_kind(events, n, PoseidonCallKind::ColumnRoot) + census::count_kind(
            events,
            n,
            PoseidonCallKind::FinalRoot,
        ) == n,
    decreases n,
{
    if n > 0 {
        law_kinds_cover_trace(events, (n - 1) as nat);
    }
}

/// The census of a trace counts its compressions: one row for each in the hash table and in the control
/// table, and, with copies, the memory of its layout.
pub proof fn law_census_counts_trace(events: Seq<PoseidonCompressionEvent>, counted: LeanAirCensus)
    requires
        counted.wf(),
        forall|kind: PoseidonCallKind|
            #[trigger] counted.poseidon_calls_by_kind@[kind.index()] == census::count_kind(
                events,
                events.len(),
                kind,
            ),
    ensures
        counted.poseidon_rows == events.len(),
        counted.control_rows == events.len(),
        counted.duplicated_memory_fes == trace::memory_of(events).len(),
{
    law_kinds_cover_trace(events, events.len());
    let c = counted.poseidon_calls_by_kind@;
    assert(c[PoseidonCallKind::CellHash.index()] == census::count_kind(
        events,
        events.len(),
        PoseidonCallKind::CellHash,
    ));
    assert(c[PoseidonCallKind::RowDigest.index()] == census::count_kind(
        events,
        events.len(),
        PoseidonCallKind::RowDigest,
    ));
    assert(c[PoseidonCallKind::RowRoot.index()] == census::count_kind(events, events.len(), PoseidonCallKind::RowRoot));
    assert(c[PoseidonCallKind::ColumnMerkle.index()] == census::count_kind(
        events,
        events.len(),
        PoseidonCallKind::ColumnMerkle,
    ));
    assert(c[PoseidonCallKind::ColumnRoot.index()] == census::count_kind(
        events,
        events.len(),
        PoseidonCallKind::ColumnRoot,
    ));
    assert(c[PoseidonCallKind::FinalRoot.index()] == census::count_kind(
        events,
        events.len(),
        PoseidonCallKind::FinalRoot,
    ));
}

/// Without copies the memory holds every codeword once and eight elements for each compression. The parity
/// table has a row for every pair of neighbours of every codeword.
pub proof fn law_census_memory_is_shared(counted: LeanAirCensus, codeword: Seq<EF>, j: nat)
    requires
        counted.wf(),
        codeword.len() == 2 * pow2(counted.shape.log_m as nat),
    ensures
        counted.shared_memory_fes_estimate == counted.shape.n_rows * hash_table::flat(codeword).len() + 8
            * counted.poseidon_rows,
        2 * counted.row_parity_rows == counted.shape.n_rows * codeword.len(),
        counted.row_parity_rows_padded > counted.row_parity_rows,
        pow2(j) > counted.row_parity_rows ==> pow2(j) >= counted.row_parity_rows_padded,
        counted.poseidon_rows_padded > counted.poseidon_rows,
        pow2(j) > counted.poseidon_rows ==> pow2(j) >= counted.poseidon_rows_padded,
        counted.control_rows_padded == counted.poseidon_rows_padded,
        2 * counted.rlc_padded() > codeword.len(),
        2 * pow2(j) > codeword.len() ==> pow2(j) >= counted.rlc_padded(),
{
    let m: nat = pow2(counted.shape.log_m as nat);
    let n: nat = counted.shape.n_rows as nat;
    assert(2 * (n * m) == n * (2 * m)) by (nonlinear_arith);
    arith::law_next_pow2_is_least((counted.row_parity_rows + 1) as nat, j);
    arith::law_next_pow2_is_least((counted.poseidon_rows + 1) as nat, j);
    arith::law_next_pow2_is_least((m + 1) as nat, j);
}

/// All tables together, and without the control table.
pub proof fn law_census_totals(counted: LeanAirCensus)
    ensures
        counted.total_active() - counted.control_rows - counted.poseidon_rows == counted.row_parity_rows,
        counted.total_padded() - counted.control_rows_padded == counted.fused_padded(),
        counted.fused_padded() - counted.row_parity_rows_padded == counted.poseidon_rows_padded,
{
}

/// A sweep tries every cell length, from sixteen elements on and twice as many each time, with every
/// count of blobs, from one on.
pub proof fn law_sweep_tries_all(max_n_blobs: usize, doublings: nat, n_blobs: usize)
    requires
        doublings < 4,
        1 <= n_blobs <= max_n_blobs,
    ensures
        witness::swept(max_n_blobs, doublings * max_n_blobs + n_blobs - 1).log_m == LOG_M,
        witness::swept(max_n_blobs, doublings * max_n_blobs + n_blobs - 1).n_rows == n_blobs,
        witness::swept(max_n_blobs, doublings * max_n_blobs + n_blobs - 1).cell_len_ext == 16 * pow2(doublings),
        16 * pow2(doublings) <= 128,
{
    lemma2_to64();
    commit::lemma_decode(doublings as int, n_blobs - 1, max_n_blobs as int);
    assert(pow2(doublings) <= 8) by {
        arith::lemma_pow2_monotone(doublings, 3);
    }
}

/// The larger of two counts.
pub proof fn law_larger_is_largest(a: int, b: int)
    ensures
        census::larger(a, b) >= a,
        census::larger(a, b) >= b,
        census::larger(a, b) == a || census::larger(a, b) == b,
{
}

/// A layout asks for the compressions of its trace in their order, each by its kind and with the data it
/// was made with; a request starts where the result of the one before it ends.
pub proof fn law_requests_follow_trace(
    events: Seq<PoseidonCompressionEvent>,
    layout: LeanAirPrecompileLayout,
    precompile_data: usize,
    i: int,
)
    requires
        layout.lays_out(events, precompile_data),
        0 <= i < events.len(),
    ensures
        layout.poseidon_requests@.len() == events.len(),
        layout.poseidon_requests@[i].kind == events[i].kind,
        layout.poseidon_requests@[i].precompile_data == precompile_data,
        layout.poseidon_requests@[0].left_ptr == 0,
        layout.poseidon_requests@[i].right_ptr == layout.poseidon_requests@[i].left_ptr + 8,
        layout.poseidon_requests@[i].result_ptr == layout.poseidon_requests@[i].right_ptr + 8,
        i + 1 < events.len() ==> layout.poseidon_requests@[i + 1].left_ptr == layout.poseidon_requests@[i].result_ptr
            + 8,
        i + 1 == events.len() ==> layout.memory@.len() == layout.poseidon_requests@[i].result_ptr + 8,
{
    let requests = layout.poseidon_requests@;
    assert(requests[i].kind == events[i].kind);
    assert(requests[0].kind == events[0].kind);
    if i + 1 < events.len() {
        assert(requests[i + 1].kind == events[i + 1].kind);
    }
}

} // verus!
