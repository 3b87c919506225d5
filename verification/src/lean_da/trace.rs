//! The commitment to blobs, with one event for each compression.
use super::schedule;
use super::schedule::{LeanAirHashSchedule, PoseidonCallKind};
use super::shape::LeanAirShape;
use crate::ext::EF;
use crate::field::F;
use crate::hashing;
use crate::lean_air::builder;
use crate::lean_air::commit;
use crate::lean_air::commit::LeanAirCommitments;
use crate::lean_air::hash_table;
use crate::poseidon;
use crate::poseidon::PoseidonConstants;
use vstd::arithmetic::power2::*;
use vstd::prelude::*;

verus! {

/// A compression: what it is for, what went in and what came out.
#[derive(Clone, Copy, Debug, PartialEq, Eq)]
pub struct PoseidonCompressionEvent {
    pub kind: PoseidonCallKind,
    pub input: [F; 16],
    pub output: [F; 8],
}

/// A commitment with its compressions.
#[derive(Clone, Debug, PartialEq, Eq)]
pub struct LeanAirTrace {
    pub commitments: LeanAirCommitments,
    pub poseidon_calls: Vec<PoseidonCompressionEvent>,
}

/// The elements at even places, then those at odd places.
pub open spec fn evens_then_odds(codeword: Seq<EF>) -> Seq<EF> {
    let m: int = codeword.len() as int / 2;
    Seq::new(
        (2 * m) as nat,
        |i: int|
            if i < m {
                codeword[2 * i]
            } else {
                codeword[2 * (i - m) + 1]
            },
    )
}

/// The rows that are committed to: the coefficients of each codeword, even places first.
pub open spec fn serialized(codewords: Seq<Vec<EF>>) -> Seq<Seq<F>> {
    Seq::new(codewords.len(), |i: int| hash_table::flat(evens_then_odds(codewords[i]@)))
}

/// Whether the events are those of the rows of the hash table, in their order.
pub open spec fn events_are(
    k: PoseidonConstants,
    shape: LeanAirShape,
    data: Seq<Seq<F>>,
    events: Seq<PoseidonCompressionEvent>,
) -> bool {
    &&& events.len() == shape.air().total_rows()
    &&& forall|i: int|
        0 <= i < events.len() ==> {
            &&& (#[trigger] events[i]).kind == schedule::kind_at(shape, i)
            &&& events[i].input@ == commit::row_input(k, shape.air(), data, i)
            &&& events[i].output@ == poseidon::compress_spec(k, events[i].input@)
        }
}

/// The coefficients of the first `2 * m` elements of a codeword, even places first.
pub fn serialize_pairs(codeword: &Vec<EF>, m: usize) -> (r: Vec<F>)
    requires
        10 * m <= usize::MAX,
        2 * m <= codeword@.len(),
    ensures
        r@ == hash_table::flat(evens_then_odds(codeword@.subrange(0, 2 * m))),
{
    let mut ordered: Vec<EF> = Vec::new();
    let mut j: usize = 0;
    while j < m
        invariant
            j <= m,
            10 * m <= usize::MAX,
            2 * m <= codeword@.len(),
            ordered@.len() == j,
            forall|i: int| 0 <= i < j ==> #[trigger] ordered@[i] == codeword@[2 * i],
        decreases m - j,
    {
        ordered.push(codeword[2 * j]);
        j = j + 1;
    }
    let mut j: usize = 0;
    while j < m
        invariant
            j <= m,
            10 * m <= usize::MAX,
            2 * m <= codeword@.len(),
            ordered@.len() == m + j,
            forall|i: int| 0 <= i < m ==> #[trigger] ordered@[i] == codeword@[2 * i],
            forall|i: int| m <= i < m + j ==> #[trigger] ordered@[i] == codeword@[2 * (i - m) + 1],
        decreases m - j,
    {
        ordered.push(codeword[2 * j + 1]);
        j = j + 1;
    }
    assert(ordered@ =~= evens_then_odds(codeword@.subrange(0, 2 * m)));
    hash_table::flatten_codeword(&ordered)
}

/// The coefficients of a codeword of the shape, even places first.
pub fn serialize_evens_then_odds(shape: LeanAirShape, codeword: &Vec<EF>) -> (r: Vec<F>)
    requires
        10 * pow2(shape.log_m as nat) <= usize::MAX,
        codeword@.len() == 2 * pow2(shape.log_m as nat),
    ensures
        r@ == hash_table::flat(evens_then_odds(codeword@)),
{
    assert(codeword@.subrange(0, 2 * pow2(shape.log_m as nat) as int) =~= codeword@);
    serialize_pairs(codeword, shape.message_len_ext())
}

/// Commits to codewords whose coefficients are laid out with the even places first.
pub fn commit_codewords_evens_then_odds(
    k: &PoseidonConstants,
    shape: LeanAirShape,
    codewords: &Vec<Vec<EF>>,
) -> (r: LeanAirCommitments)
    requires
        shape.air().valid(),
        shape.air().fits_data(),
        codewords@.len() == shape.n_rows,
        forall|i: int|
            0 <= i < shape.n_rows ==> (#[trigger] codewords@[i])@.len() == 2 * pow2(shape.log_m as nat),
    ensures
        r.commits(*k, shape.air(), serialized(codewords@)),
{
    build_trace_evens_then_odds(k, shape, codewords).commitments
}

/// Commits as [`commit_codewords_evens_then_odds`] does and lists every compression, in the order
/// of the rows of the hash table.
pub fn build_trace_evens_then_odds(
    k: &PoseidonConstants,
    shape: LeanAirShape,
    codewords: &Vec<Vec<EF>>,
) -> (r: LeanAirTrace)
    requires
        shape.air().valid(),
        shape.air().fits_data(),
        codewords@.len() == shape.n_rows,
        forall|i: int|
            0 <= i < shape.n_rows ==> (#[trigger] codewords@[i])@.len() == 2 * pow2(shape.log_m as nat),
    ensures
        r.commitments.commits(*k, shape.air(), serialized(codewords@)),
        events_are(*k, shape, serialized(codewords@), r.poseidon_calls@),
{
    let ghost a = shape.air();
    let ghost d = serialized(codewords@);
    let mut data: Vec<Vec<F>> = Vec::new();
    let mut i: usize = 0;
    while i < codewords.len()
        invariant
            a.fits_data(),
            a == shape.air(),
            i <= codewords@.len(),
            codewords@.len() == shape.n_rows,
            data@.len() == i,
            forall|i: int|
                0 <= i < shape.n_rows ==> (#[trigger] codewords@[i])@.len() == 2 * pow2(shape.log_m as nat),
            forall|j: int|
                0 <= j < i ==> (#[trigger] data@[j])@ == hash_table::flat(evens_then_odds(codewords@[j]@)),
        decreases codewords@.len() - i,
    {
        let row = serialize_evens_then_odds(shape, &codewords[i]);
        data.push(row);
        i = i + 1;
    }
    proof {
        assert(commit::data_views(data@) =~= d);
        assert forall|i: int| 0 <= i < a.n_rows implies (#[trigger] data@[i])@.len() == 5 * a.codeword_len() by {
            assert(commit::data_views(data@)[i] == d[i]);
            assert(codewords@[i]@.len() == a.codeword_len());
        }
    }
    let (commitments, rows) = builder::build_dedicated_commitments(k, shape.to_air(), &data);
    let plan = LeanAirHashSchedule::new(shape);
    let mut poseidon_calls: Vec<PoseidonCompressionEvent> = Vec::new();
    let mut i: usize = 0;
    while i < rows.len()
        invariant
            a == shape.air(),
            a.valid(),
            a.fits_data(),
            plan.shape == shape,
            plan.wf(),
            i <= rows@.len(),
            rows@.len() == a.total_rows(),
            poseidon_calls@.len() == i,
            forall|j: int|
                0 <= j < a.total_rows() ==> hashing::row_is(*k, #[trigger] rows@[j], commit::row_input(*k, a, d, j)),
            forall|j: int|
                0 <= j < i ==> {
                    &&& (#[trigger] poseidon_calls@[j]).kind == schedule::kind_at(shape, j)
                    &&& poseidon_calls@[j].input@ == commit::row_input(*k, a, d, j)
                    &&& poseidon_calls@[j].output@ == poseidon::compress_spec(*k, poseidon_calls@[j].input@)
                },
        decreases rows@.len() - i,
    {
        if let Some(meta) = plan.row_meta(i) {
            poseidon_calls.push(
                PoseidonCompressionEvent { kind: meta.kind, input: rows[i].inputs, output: rows[i].outputs },
            );
        }
        i = i + 1;
    }
    LeanAirTrace { commitments, poseidon_calls }
}

/// A request for a compression: where its two inputs and its output stand in memory.
#[derive(Clone, Copy, Debug, PartialEq, Eq, Structural)]
pub struct PoseidonPrecompileRequest {
    pub kind: PoseidonCallKind,
    pub precompile_data: usize,
    pub left_ptr: usize,
    pub right_ptr: usize,
    pub result_ptr: usize,
}

/// The memory of the compressions and the requests that point into it.
#[derive(Clone, Debug, PartialEq, Eq)]
pub struct LeanAirPrecompileLayout {
    pub memory: Vec<F>,
    pub poseidon_requests: Vec<PoseidonPrecompileRequest>,
}

/// The memory of the compressions: the input and the output of one after the other.
pub open spec fn memory_of(events: Seq<PoseidonCompressionEvent>) -> Seq<F> {
    Seq::new(
        24 * events.len(),
        |p: int|
            if p % 24 < 16 {
                events[p / 24].input@[p % 24]
            } else {
                events[p / 24].output@[p % 24 - 16]
            },
    )
}

impl LeanAirPrecompileLayout {
    /// Whether the layout is that of the given events.
    pub open spec fn lays_out(self, events: Seq<PoseidonCompressionEvent>, precompile_data: usize) -> bool {
        &&& self.memory@ == memory_of(events)
        &&& self.poseidon_requests@.len() == events.len()
        &&& forall|i: int|
            0 <= i < events.len() ==> {
                let request = #[trigger] self.poseidon_requests@[i];
                &&& request.kind == events[i].kind
                &&& request.precompile_data == precompile_data
                &&& request.left_ptr == 24 * i
                &&& request.right_ptr == 24 * i + 8
                &&& request.result_ptr == 24 * i + 16
            }
    }
}

/// Lays the compressions of a trace out in memory, with a request for each.
pub fn build_precompile_layout(trace: &LeanAirTrace, precompile_data: usize) -> (r: LeanAirPrecompileLayout)
    requires
        24 * trace.poseidon_calls@.len() <= usize::MAX,
    ensures
        r.lays_out(trace.poseidon_calls@, precompile_data),
{
    let ghost events = trace.poseidon_calls@;
    let mut memory: Vec<F> = Vec::new();
    let mut poseidon_requests: Vec<PoseidonPrecompileRequest> = Vec::new();
    let mut i: usize = 0;
    while i < trace.poseidon_calls.len()
        invariant
            i <= events.len(),
            events == trace.poseidon_calls@,
            24 * events.len() <= usize::MAX,
            memory@.len() == 24 * i,
            memory@ == memory_of(events).subrange(0, 24 * i),
            poseidon_requests@.len() == i,
            forall|j: int|
                0 <= j < i ==> {
                    let request = #[trigger] poseidon_requests@[j];
                    &&& request.kind == events[j].kind
                    &&& request.precompile_data == precompile_data
                    &&& request.left_ptr == 24 * j
                    &&& request.right_ptr == 24 * j + 8
                    &&& request.result_ptr == 24 * j + 16
                },
        decreases events.len() - i,
    {
        let call = trace.poseidon_calls[i];
        let left_ptr: usize = memory.len();
        let mut j: usize = 0;
        while j < 16
            invariant
                i < events.len(),
                call == events[i as int],
                j <= 16,
                memory@ == memory_of(events).subrange(0, 24 * i + j),
            decreases 16 - j,
        {
            memory.push(call.input[j]);
            assert((24 * i + j) / 24 == i as int && (24 * i + j) % 24 == j as int);
            assert(memory@ =~= memory_of(events).subrange(0, 24 * i + j + 1));
            j = j + 1;
        }
        let mut j: usize = 0;
        while j < 8
            invariant
                i < events.len(),
                call == events[i as int],
                j <= 8,
                memory@ == memory_of(events).subrange(0, 24 * i + 16 + j),
            decreases 8 - j,
        {
            memory.push(call.output[j]);
            assert((24 * i + 16 + j) / 24 == i as int && (24 * i + 16 + j) % 24 == 16 + j);
            assert(memory@ =~= memory_of(events).subrange(0, 24 * i + 16 + j + 1));
            j = j + 1;
        }
        poseidon_requests.push(
            PoseidonPrecompileRequest {
                kind: call.kind,
                precompile_data,
                left_ptr,
                right_ptr: left_ptr + 8,
                result_ptr: left_ptr + 16,
            },
        );
        i = i + 1;
    }
    assert(memory@ =~= memory_of(events));
    LeanAirPrecompileLayout { memory, poseidon_requests }
}

/// The requests point at what they ask for: the inputs of a compression stand at its first two
/// pointers and their compression at the third.
pub proof fn law_requests_point_at_compressions(
    k: PoseidonConstants,
    shape: LeanAirShape,
    data: Seq<Seq<F>>,
    events: Seq<PoseidonCompressionEvent>,
    layout: LeanAirPrecompileLayout,
    precompile_data: usize,
    i: int,
)
    requires
        events_are(k, shape, data, events),
        layout.lays_out(events, precompile_data),
        0 <= i < events.len(),
    ensures
        ({
            let request = layout.poseidon_requests@[i];
            let memory = layout.memory@;
            let left = memory.subrange(request.left_ptr as int, request.left_ptr + 8);
            let right = memory.subrange(request.right_ptr as int, request.right_ptr + 8);
            &&& request.result_ptr + 8 <= memory.len()
            &&& left + right == events[i].input@
            &&& memory.subrange(request.result_ptr as int, request.result_ptr + 8) == poseidon::compress_spec(
                k,
                left + right,
            )
        }),
{
    let request = layout.poseidon_requests@[i];
    let memory = layout.memory@;
    assert(events[i].kind == events[i].kind);
    assert forall|j: int| 0 <= j < 24 implies (#[trigger] memory[24 * i + j]) == (if j < 16 {
        events[i].input@[j]
    } else {
        events[i].output@[j - 16]
    }) by {
        assert((24 * i + j) / 24 == i && (24 * i + j) % 24 == j);
    }
    let left = memory.subrange(request.left_ptr as int, request.left_ptr + 8);
    let right = memory.subrange(request.right_ptr as int, request.right_ptr + 8);
    assert forall|j: int| 0 <= j < 16 implies (left + right)[j] == events[i].input@[j] by {
        assert(memory[24 * i + j] == events[i].input@[j]);
    }
    assert(left + right =~= events[i].input@);
    let result = memory.subrange(request.result_ptr as int, request.result_ptr + 8);
    assert forall|j: int| 0 <= j < 8 implies result[j] == events[i].output@[j] by {
        assert(memory[24 * i + (16 + j)] == events[i].output@[j]);
    }
    assert(result =~= events[i].output@);
}

} // verus!
