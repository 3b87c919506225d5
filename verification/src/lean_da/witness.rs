//! What is proved of the blobs: the witness, the public input and the program it is for.
use super::shape::{LeanAirShape, DEFAULT_CELL_LEN_EXT};
use super::trace;
use crate::arith;
use crate::ext::EF;
use crate::field::F;
use crate::lean_air::builder;
use crate::lean_air::commit;
use crate::lean_air::hash_table;
use crate::ntt;
use crate::poseidon::PoseidonConstants;
use vstd::arithmetic::power2::*;
use vstd::prelude::*;

verus! {

/// The logarithm of the number of extension field elements of a blob.
pub const LOG_M: usize = 13;

/// The number of blobs, unless another is asked for.
pub const DEFAULT_N_BLOBS: usize = 8;

/// The number of extension field elements of a blob.
const BLOB_LEN: usize = 8192;

/// The program that checks the blobs.
#[derive(Clone, Copy, Debug, PartialEq, Eq, Structural)]
pub enum Construction {
    /// The blobs are only checked.
    Baseline,
    /// The blobs are committed to as well.
    ColumnCommit,
}

impl Construction {
    /// The file of the program.
    pub fn entry(self) -> (r: &'static str)
        ensures
            self is Baseline ==> r@ == "lean_da.py"@,
            self is ColumnCommit ==> r@ == "lean_da_column_commit.py"@,
    {
        match self {
            Construction::Baseline => "lean_da.py",
            Construction::ColumnCommit => "lean_da_column_commit.py",
        }
    }

    /// The name of the program.
    pub fn label(self) -> (r: &'static str)
        ensures
            self is Baseline ==> r@ == "baseline"@,
            self is ColumnCommit ==> r@ == "column-commit"@,
    {
        match self {
            Construction::Baseline => "baseline",
            Construction::ColumnCommit => "column-commit",
        }
    }
}

/// The numbers that the text of a program is completed with.
#[derive(Clone, Copy, Debug, PartialEq, Eq, Structural)]
pub struct Replacements {
    pub log_m: usize,
    pub n_blobs: usize,
    pub n_blobs_padded: usize,
    pub log_n_blobs_padded: usize,
}

/// The exponent of a power of two.
pub fn log2_exact_power_of_two(n: usize) -> (r: usize)
    requires
        arith::is_power(n as nat),
    ensures
        n == pow2(r as nat),
{
    arith::log2_strict(n)
}

/// The numbers for a count of blobs.
pub fn replacements(n_blobs: usize) -> (r: Replacements)
    requires
        n_blobs > 0,
        arith::next_pow2(n_blobs as nat) <= usize::MAX,
    ensures
        r.log_m == LOG_M,
        r.n_blobs == n_blobs,
        r.n_blobs_padded == arith::next_pow2(n_blobs as nat),
        pow2(r.log_n_blobs_padded as nat) == arith::next_pow2(n_blobs as nat),
{
    let n_blobs_padded: usize = arith::next_power_of_two(n_blobs);
    Replacements { log_m: LOG_M, n_blobs, n_blobs_padded, log_n_blobs_padded: log2_exact_power_of_two(n_blobs_padded) }
}

/// The rows that a program reads: the coefficients of each codeword, even places first.
pub open spec fn witness_rows(codewords: Seq<Vec<EF>>) -> Seq<Seq<F>> {
    Seq::new(
        codewords.len(),
        |i: int|
            hash_table::flat(trace::evens_then_odds(codewords[i]@.subrange(0, 2 * pow2(LOG_M as nat) as int))),
    )
}

/// Whether the codewords are long enough.
pub open spec fn full(codewords: Seq<Vec<EF>>) -> bool {
    forall|i: int| 0 <= i < codewords.len() ==> (#[trigger] codewords[i])@.len() >= 2 * pow2(LOG_M as nat)
}

/// The shape that the codewords are committed to in.
pub open spec fn blob_shape(n_blobs: usize) -> LeanAirShape {
    LeanAirShape { log_m: LOG_M, n_rows: n_blobs, cell_len_ext: DEFAULT_CELL_LEN_EXT }
}

/// The codewords of messages.
pub fn generate_codewords(messages: &Vec<Vec<EF>>) -> (r: Vec<Vec<EF>>)
    requires
        forall|i: int| 0 <= i < messages@.len() ==> (#[trigger] messages@[i])@.len() == pow2(LOG_M as nat),
    ensures
        r@.len() == messages@.len(),
        forall|i: int| 0 <= i < r@.len() ==> (#[trigger] r@[i])@ == ntt::codeword_spec(messages@[i]@),
        full(r@),
{
    let mut codewords: Vec<Vec<EF>> = Vec::new();
    let mut i: usize = 0;
    while i < messages.len()
        invariant
            i <= messages@.len(),
            codewords@.len() == i,
            forall|i: int| 0 <= i < messages@.len() ==> (#[trigger] messages@[i])@.len() == pow2(LOG_M as nat),
            forall|j: int| 0 <= j < i ==> (#[trigger] codewords@[j])@ == ntt::codeword_spec(messages@[j]@),
        decreases messages@.len() - i,
    {
        proof {
            lemma2_to64();
            assert(arith::is_power(messages@[i as int]@.len()));
        }
        codewords.push(ntt::rs_encode(&messages[i]));
        i = i + 1;
    }
    codewords
}

/// The coefficients of a codeword as a program reads them.
pub fn serialize_codeword_for_witness(codeword: &Vec<EF>) -> (r: Vec<F>)
    requires
        codeword@.len() >= 2 * pow2(LOG_M as nat),
    ensures
        r@ == hash_table::flat(trace::evens_then_odds(codeword@.subrange(0, 2 * pow2(LOG_M as nat) as int))),
{
    proof {
        lemma2_to64();
    }
    trace::serialize_pairs(codeword, BLOB_LEN)
}

/// What a program reads beside its public input.
#[derive(Clone, Debug, PartialEq, Eq)]
pub struct BlobWitness {
    pub preamble_memory_len: usize,
    pub codeword: Vec<Vec<F>>,
}

/// The rows that a program reads.
fn serialize_all(codewords: &Vec<Vec<EF>>) -> (r: Vec<Vec<F>>)
    requires
        full(codewords@),
    ensures
        commit::data_views(r@) == witness_rows(codewords@),
{
    let mut rows: Vec<Vec<F>> = Vec::new();
    let mut i: usize = 0;
    while i < codewords.len()
        invariant
            full(codewords@),
            i <= codewords@.len(),
            rows@.len() == i,
            forall|j: int| 0 <= j < i ==> (#[trigger] rows@[j])@ == witness_rows(codewords@)[j],
        decreases codewords@.len() - i,
    {
        let row = serialize_codeword_for_witness(&codewords[i]);
        rows.push(row);
        i = i + 1;
    }
    assert(commit::data_views(rows@) =~= witness_rows(codewords@));
    rows
}

/// The witness of codewords.
pub fn build_witness_from_codewords(codewords: &Vec<Vec<EF>>) -> (r: BlobWitness)
    requires
        full(codewords@),
    ensures
        r.preamble_memory_len == 0,
        commit::data_views(r.codeword@) == witness_rows(codewords@),
{
    BlobWitness { preamble_memory_len: 0, codeword: serialize_all(codewords) }
}

/// The commitment to codewords that a program is given.
pub fn build_column_commit_public_input(k: &PoseidonConstants, codewords: &Vec<Vec<EF>>) -> (r: [F; 8])
    requires
        codewords@.len() > 0,
        full(codewords@),
        blob_shape(codewords.len()).air().fits_rows(),
    ensures
        r@ == commit::commitment_spec(
            *k,
            blob_shape(codewords.len()).air(),
            witness_rows(codewords@),
        ),
{
    let shape = LeanAirShape::new(LOG_M, codewords.len()).to_air();
    let rows = serialize_all(codewords);
    proof {
        lemma2_to64();
        assert(rows@.len() == commit::data_views(rows@).len());
        assert forall|i: int| 0 <= i < shape.n_rows implies (#[trigger] rows@[i])@.len() == 5
            * shape.codeword_len() by {
            assert(commit::data_views(rows@)[i] == witness_rows(codewords@)[i]);
            assert(codewords@[i]@.len() >= 2 * pow2(LOG_M as nat));
        }
    }
    let (commitments, _) = builder::build_dedicated_commitments(k, shape, &rows);
    commitments.commitment_root
}

/// The witness and the public input of codewords for a program.
pub fn build_instance(k: &PoseidonConstants, codewords: &Vec<Vec<EF>>, construction: Construction) -> (r: (
    BlobWitness,
    Vec<F>,
))
    requires
        full(codewords@),
        construction is ColumnCommit ==> codewords@.len() > 0 && blob_shape(
            codewords.len(),
        ).air().fits_rows(),
    ensures
        r.0.preamble_memory_len == 0,
        commit::data_views(r.0.codeword@) == witness_rows(codewords@),
        construction is Baseline ==> r.1@.len() == 0,
        construction is ColumnCommit ==> r.1@ == commit::commitment_spec(
            *k,
            blob_shape(codewords.len()).air(),
            witness_rows(codewords@),
        ),
{
    let mut public_input: Vec<F> = Vec::new();
    match construction {
        Construction::Baseline => {},
        Construction::ColumnCommit => {
            let digest = build_column_commit_public_input(k, codewords);
            let mut i: usize = 0;
            while i < 8
                invariant
                    i <= 8,
                    public_input@ == digest@.subrange(0, i as int),
                decreases 8 - i,
            {
                public_input.push(digest[i]);
                i = i + 1;
                assert(public_input@ =~= digest@.subrange(0, i as int));
            }
            assert(public_input@ =~= digest@);
        },
    }
    (build_witness_from_codewords(codewords), public_input)
}

/// The commitment that a program is given is the one of the trace of the same codewords.
pub proof fn law_public_input_is_commitment(k: PoseidonConstants, codewords: Seq<Vec<EF>>)
    requires
        forall|i: int| 0 <= i < codewords.len() ==> (#[trigger] codewords[i])@.len() == 2 * pow2(LOG_M as nat),
    ensures
        witness_rows(codewords) == trace::serialized(codewords),
        commit::commitment_spec(k, blob_shape(codewords.len() as usize).air(), witness_rows(codewords))
            == commit::commitment_spec(
            k,
            blob_shape(codewords.len() as usize).air(),
            trace::serialized(codewords),
        ),
{
    assert forall|i: int| 0 <= i < codewords.len() implies #[trigger] witness_rows(codewords)[i]
        == trace::serialized(codewords)[i] by {
        assert(codewords[i]@.subrange(0, 2 * pow2(LOG_M as nat) as int) =~= codewords[i]@);
    }
    assert(witness_rows(codewords) =~= trace::serialized(codewords));
}

/// The shapes that a sweep over cell lengths and blob counts tries.
pub open spec fn swept(max_n_blobs: usize, i: int) -> LeanAirShape {
    LeanAirShape {
        log_m: LOG_M,
        n_rows: (i % max_n_blobs as int + 1) as usize,
        cell_len_ext: (16 * pow2((i / max_n_blobs as int) as nat)) as usize,
    }
}

/// The shapes with cells of 16, 32, 64 and 128 elements and up to `max_n_blobs` blobs.
pub fn sweep_shapes(max_n_blobs: usize) -> (r: Vec<LeanAirShape>)
    requires
        4 * max_n_blobs <= usize::MAX,
    ensures
        r@.len() == 4 * max_n_blobs,
        forall|i: int| 0 <= i < 4 * max_n_blobs ==> #[trigger] r@[i] == swept(max_n_blobs, i),
{
    let mut shapes: Vec<LeanAirShape> = Vec::new();
    let mut cell_len_ext: usize = 16;
    let mut j: usize = 0;
    proof {
        lemma2_to64();
    }
    while j < 4
        invariant
            j <= 4,
            4 * max_n_blobs <= usize::MAX,
            cell_len_ext == 16 * pow2(j as nat),
            shapes@.len() == j * max_n_blobs,
            forall|i: int| 0 <= i < shapes@.len() ==> #[trigger] shapes@[i] == swept(max_n_blobs, i),
        decreases 4 - j,
    {
        let mut n: usize = 0;
        proof {
            lemma2_to64();
        }
        while n < max_n_blobs
            invariant
                j < 4,
                n <= max_n_blobs,
                4 * max_n_blobs <= usize::MAX,
                cell_len_ext == 16 * pow2(j as nat),
                shapes@.len() == j * max_n_blobs + n,
                forall|i: int| 0 <= i < shapes@.len() ==> #[trigger] shapes@[i] == swept(max_n_blobs, i),
            decreases max_n_blobs - n,
        {
            proof {
                commit::lemma_decode(j as int, n as int, max_n_blobs as int);
            }
            shapes.push(LeanAirShape { log_m: LOG_M, n_rows: n + 1, cell_len_ext });
            n = n + 1;
        }
        proof {
            assert((j + 1) * max_n_blobs == j * max_n_blobs + max_n_blobs) by (nonlinear_arith);
            lemma_pow2_unfold((j + 1) as nat);
        }
        j = j + 1;
        cell_len_ext = 2 * cell_len_ext;
    }
    shapes
}

} // verus!
