//! What the public data of a proof say, read back from them: the scalars that are absorbed, the
//! challenge that is drawn from them, and the size of a proof.
use super::protocol;
use super::protocol::{MerkleOpening, RawProof, SparseStatement, WhirConfigBuilder};
use super::shape::LeanAirShape;
use crate::ext;
use crate::ext::EF;
use crate::field;
use crate::field::{F, MODULUS};
use crate::mle;
use crate::poseidon;
use crate::poseidon::PoseidonConstants;
use crate::sums;
use vstd::arithmetic::power2::*;
use vstd::prelude::*;

verus! {

proof fn lemma_openings_prefix(a: Seq<MerkleOpening>, b: Seq<MerkleOpening>, n: nat)
    requires
        forall|i: int| 0 <= i < n ==> #[trigger] a[i] == b[i],
    ensures
        protocol::openings_size(a, n) == protocol::openings_size(b, n),
    decreases n,
{
    if n > 0 {
        lemma_openings_prefix(a, b, (n - 1) as nat);
        assert(a[n - 1] == b[n - 1]);
    }
}

proof fn lemma_openings_insert(
    before: Seq<MerkleOpening>,
    one: MerkleOpening,
    after: Seq<MerkleOpening>,
    n: nat,
)
    requires
        n <= after.len(),
    ensures
        protocol::openings_size(before + seq![one] + after, before.len() + 1 + n) == protocol::openings_size(
            before + after,
            before.len() + n,
        ) + one.leaf_data@.len() + 8 * one.path@.len(),
    decreases n,
{
    let with = before + seq![one] + after;
    let without = before + after;
    if n == 0 {
        lemma_openings_prefix(with, without, before.len());
        assert(with[before.len() as int] == one);
    } else {
        lemma_openings_insert(before, one, after, (n - 1) as nat);
        assert(with[(before.len() + n) as int] == after[n - 1]);
        assert(without[before.len() + n - 1] == after[n - 1]);
    }
}

/// The size of a proof counts every opening in full, wherever it stands: with one opening more, a proof
/// is longer by the values of its leaf and by eight elements for every digest of its path, and by what
/// its transcript is longer.
pub proof fn law_every_opening_counts(
    short: RawProof,
    long: RawProof,
    before: Seq<MerkleOpening>,
    one: MerkleOpening,
    after: Seq<MerkleOpening>,
)
    requires
        short.merkle_openings@ == before + after,
        long.merkle_openings@ == before + seq![one] + after,
    ensures
        long.size() - short.size() == one.leaf_data@.len() + 8 * one.path@.len() + (long.transcript@.len()
            - short.transcript@.len()),
{
    lemma_openings_insert(before, one, after, after.len());
}

/// The size of a proof without openings is that of its transcript.
pub proof fn law_transcript_alone_counts(proof_sent: RawProof)
    requires
        proof_sent.merkle_openings@.len() == 0,
    ensures
        proof_sent.size() == proof_sent.transcript@.len(),
{
}

/// The public data give back, one after the other, the three dimensions of the shape, the rows, the
/// columns and the variables of the table, and the commitment.
pub proof fn law_public_data_read_back(
    shape: LeanAirShape,
    root: Seq<F>,
    rows: int,
    columns: int,
    n_vars: int,
)
    requires
        shape.log_m < MODULUS,
        shape.n_rows < MODULUS,
        shape.cell_len_ext < MODULUS,
        0 <= rows < MODULUS,
        0 <= columns < MODULUS,
        0 <= n_vars < MODULUS,
        root.len() == 8,
    ensures
        protocol::public_scalars_spec(shape, root, rows, columns, n_vars).len() == 14,
        protocol::public_scalars_spec(shape, root, rows, columns, n_vars)[0].val() == shape.log_m,
        protocol::public_scalars_spec(shape, root, rows, columns, n_vars)[1].val() == shape.n_rows,
        protocol::public_scalars_spec(shape, root, rows, columns, n_vars)[2].val() == shape.cell_len_ext,
        protocol::public_scalars_spec(shape, root, rows, columns, n_vars)[3].val() == rows,
        protocol::public_scalars_spec(shape, root, rows, columns, n_vars)[4].val() == columns,
        protocol::public_scalars_spec(shape, root, rows, columns, n_vars)[5].val() == n_vars,
        protocol::public_scalars_spec(shape, root, rows, columns, n_vars).skip(6) == root,
{
    field::lemma_of_val(shape.log_m as int);
    field::lemma_of_val(shape.n_rows as int);
    field::lemma_of_val(shape.cell_len_ext as int);
    field::lemma_of_val(rows);
    field::lemma_of_val(columns);
    field::lemma_of_val(n_vars);
    assert(protocol::public_scalars_spec(shape, root, rows, columns, n_vars).skip(6) =~= root);
}

/// Two proofs with the same public data are of the same shape, the same table and the same commitment.
pub proof fn law_public_data_bind(
    a: LeanAirShape,
    b: LeanAirShape,
    root_a: Seq<F>,
    root_b: Seq<F>,
    table_a: (int, int, int),
    table_b: (int, int, int),
)
    requires
        a.log_m < MODULUS,
        a.n_rows < MODULUS,
        a.cell_len_ext < MODULUS,
        b.log_m < MODULUS,
        b.n_rows < MODULUS,
        b.cell_len_ext < MODULUS,
        0 <= table_a.0 < MODULUS,
        0 <= table_a.1 < MODULUS,
        0 <= table_a.2 < MODULUS,
        0 <= table_b.0 < MODULUS,
        0 <= table_b.1 < MODULUS,
        0 <= table_b.2 < MODULUS,
        root_a.len() == 8,
        root_b.len() == 8,
        protocol::public_scalars_spec(a, root_a, table_a.0, table_a.1, table_a.2) == protocol::public_scalars_spec(
            b,
            root_b,
            table_b.0,
            table_b.1,
            table_b.2,
        ),
    ensures
        a == b,
        root_a == root_b,
        table_a == table_b,
{
    law_public_data_read_back(a, root_a, table_a.0, table_a.1, table_a.2);
    law_public_data_read_back(b, root_b, table_b.0, table_b.1, table_b.2);
}

/// The challenge that combines the rows has as its coefficients the first five elements of the digest
/// of the tag, the three dimensions, the commitment and four zeros. Where those five are zero it is
/// one.
pub proof fn law_row_challenge_is_digest(k: PoseidonConstants, shape: LeanAirShape, root: Seq<F>, block: Seq<F>)
    requires
        root.len() == 8,
        block.len() == 16,
        block[0] == F::of(0x1EADA1),
        block[1] == F::of(shape.log_m as int),
        block[2] == F::of(shape.n_rows as int),
        block[3] == F::of(shape.cell_len_ext as int),
        block.subrange(4, 12) == root,
        forall|i: int| 12 <= i < 16 ==> #[trigger] block[i] == F::of(0),
    ensures
        ({
            let digest = poseidon::compress_spec(k, block);
            let alpha = protocol::row_alpha_spec(k, shape, root);
            let all_zero = digest.take(5) == Seq::new(5, |i: int| F::of(0));
            &&& !all_zero ==> seq![alpha.c0, alpha.c1, alpha.c2, alpha.c3, alpha.c4] == digest.take(5)
            &&& all_zero ==> seq![alpha.c0, alpha.c1, alpha.c2, alpha.c3, alpha.c4] == seq![
                F::of(1),
                F::of(0),
                F::of(0),
                F::of(0),
                F::of(0),
            ]
        }),
{
    let input = protocol::row_alpha_input(shape, root);
    assert(input =~= block) by {
        assert forall|i: int| 0 <= i < 16 implies #[trigger] input[i] == block[i] by {
            if 4 <= i < 12 {
                assert(block.subrange(4, 12)[i - 4] == block[i]);
            }
        }
    }
    let digest = poseidon::compress_spec(k, block);
    let alpha = protocol::row_alpha_spec(k, shape, root);
    let five = digest.take(5);
    let zeros = Seq::new(5, |i: int| F::of(0));
    if digest[0] == F::of(0) && digest[1] == F::of(0) && digest[2] == F::of(0) && digest[3] == F::of(0) && digest[4]
        == F::of(0) {
        assert(five =~= zeros);
        assert(seq![alpha.c0, alpha.c1, alpha.c2, alpha.c3, alpha.c4] =~= seq![
            F::of(1),
            F::of(0),
            F::of(0),
            F::of(0),
            F::of(0),
        ]);
    } else {
        if five == zeros {
            assert(five[0] == digest[0] && five[1] == digest[1] && five[2] == digest[2] && five[3] == digest[3]
                && five[4] == digest[4]);
            assert(zeros[0] == F::of(0) && zeros[1] == F::of(0) && zeros[2] == F::of(0) && zeros[3] == F::of(0)
                && zeros[4] == F::of(0));
        }
        assert(seq![alpha.c0, alpha.c1, alpha.c2, alpha.c3, alpha.c4] =~= five);
    }
}

/// Every element but zero is a challenge: that of the digests that begin with its coefficients, and of
/// no others where it is not one.
pub proof fn law_every_challenge_is_drawn(alpha: EF, digest: Seq<F>)
    requires
        alpha != EF::zero_spec(),
        alpha != EF::one_spec(),
        digest.len() >= 5,
    ensures
        protocol::challenge_of(digest) == alpha <==> digest.take(5) == seq![
            alpha.c0,
            alpha.c1,
            alpha.c2,
            alpha.c3,
            alpha.c4,
        ],
        protocol::challenge_of(digest) != EF::zero_spec(),
{
    let five = digest.take(5);
    let limbs = seq![alpha.c0, alpha.c1, alpha.c2, alpha.c3, alpha.c4];
    assert(five[0] == digest[0] && five[1] == digest[1] && five[2] == digest[2] && five[3] == digest[3] && five[4]
        == digest[4]);
    assert(limbs[0] == alpha.c0 && limbs[1] == alpha.c1 && limbs[2] == alpha.c2 && limbs[3] == alpha.c3 && limbs[4]
        == alpha.c4);
    if protocol::challenge_of(digest) == alpha {
        assert(five =~= limbs);
    }
    field::lemma_of_val(0);
    field::lemma_of_val(1);
    assert(F::of(0).val() != F::of(1).val());
}

/// Digests whose first five elements differ give different challenges, where neither begins with five
/// zeros.
pub proof fn law_row_challenges_differ(a: Seq<F>, b: Seq<F>)
    requires
        a.len() >= 5,
        b.len() >= 5,
        a.take(5) != b.take(5),
        a.take(5) != Seq::new(5, |i: int| F::of(0)),
        b.take(5) != Seq::new(5, |i: int| F::of(0)),
    ensures
        protocol::challenge_of(a) != protocol::challenge_of(b),
{
    let (x, y) = (protocol::challenge_of(a), protocol::challenge_of(b));
    let zeros = Seq::new(5, |i: int| F::of(0));
    if a[0] == F::of(0) && a[1] == F::of(0) && a[2] == F::of(0) && a[3] == F::of(0) && a[4] == F::of(0) {
        assert(a.take(5) =~= zeros);
    }
    if b[0] == F::of(0) && b[1] == F::of(0) && b[2] == F::of(0) && b[3] == F::of(0) && b[4] == F::of(0) {
        assert(b.take(5) =~= zeros);
    }
    if x == y {
        assert(a[0] == x.c0 && a[1] == x.c1 && a[2] == x.c2 && a[3] == x.c3 && a[4] == x.c4);
        assert(b[0] == y.c0 && b[1] == y.c1 && b[2] == y.c2 && b[3] == y.c3 && b[4] == y.c4);
        assert(a.take(5) =~= b.take(5));
    }
}

/// The polynomial that is committed to holds row `r` of column `c` at `c * rows + r`, and nothing but
/// zeros behind its last column.
pub proof fn law_global_polynomial_holds_columns(columns: Seq<Vec<F>>, rows: int, c: int, r: int, behind: int)
    requires
        0 <= c < columns.len(),
        0 <= r < rows,
        behind >= columns.len() * rows,
    ensures
        protocol::global_value(columns, rows, c * rows + r) == columns[c]@[r],
        protocol::global_value(columns, rows, behind) == F::of(0),
{
    super::commit::lemma_decode(c, r, rows);
    super::schedule::lemma_block_bound(c, columns.len() as int, r, rows);
}

/// A polynomial without variables is its value.
proof fn lemma_mle_at_index(v: spec_fn(int) -> EF, point: Seq<EF>)
    requires
        point.len() == 0,
        v(0).canonical(),
    ensures
        mle::mle_at(v, point) == v(0),
{
    let weighed = |i: int| v(i) * mle::eq_weight(point, i);
    lemma2_to64();
    ext::lemma_mul_one(v(0));
    assert(sums::sum(0, weighed) == EF::zero_spec());
    ext::lemma_add_zero(v(0));
    ext::lemma_add_comm(EF::zero_spec(), v(0));
    assert(sums::sum(1, weighed) == v(0));
}

/// Statements that hold of a polynomial fix its columns at the point, and the commitment, element by
/// element, in the last eight columns of the last row that is used. They are of its number of
/// variables.
pub proof fn law_statements_open_columns_and_root(
    shape: LeanAirShape,
    log_rows: nat,
    n_vars: int,
    point: Seq<EF>,
    col_evals: Seq<EF>,
    root: Seq<F>,
    statements: Seq<SparseStatement>,
    g: spec_fn(int) -> EF,
    c: int,
    limb: int,
)
    requires
        protocol::statements_spec(shape, pow2(log_rows) as int, n_vars, point, col_evals, root, statements),
        point.len() == log_rows,
        forall|i: int| 0 <= i < statements.len() ==> (#[trigger] statements[i]).holds(g),
        forall|i: int| (#[trigger] g(i)).canonical(),
        0 <= c < col_evals.len() <= usize::MAX,
        0 <= limb < 8,
    ensures
        statements.len() == 9,
        forall|i: int| 0 <= i < 9 ==> (#[trigger] statements[i]).total_num_variables == n_vars,
        mle::mle_at(|j: int| g(c * pow2(log_rows) + j), point) == col_evals[c],
        g((84 + limb) * pow2(log_rows) + shape.total_rows() - 1) == EF::from_base_spec(root[limb]),
{
    assert(statements[0].holds(g));
    let first = statements[0].values@[c];
    assert(first.selector == c && first.value == col_evals[c]);
    super::completeness::lemma_mle_ext(
        |j: int| g(first.selector * pow2(statements[0].point@.len()) + j),
        |j: int| g(c * pow2(log_rows) + j),
        point,
    );
    let s = statements[1 + limb];
    assert(s.holds(g));
    let v = s.values@[0];
    assert(s.point@ =~= Seq::empty());
    lemma2_to64();
    let f = |j: int| g(v.selector * pow2(s.point@.len()) + j);
    assert(mle::mle_at(f, s.point@) == v.value);
    lemma_mle_at_index(f, s.point@);
    assert(v.selector * pow2(0) + 0 == v.selector);
}

/// How the commitment scheme folds: with too few variables it is left as it was. Otherwise the first
/// fold takes the most variables up to eight that leave five, but no fewer than the domain is reduced
/// by; later folds take five; and the coefficients are sent for the most variables up to twelve that are
/// fewer than those left.
pub proof fn law_tuned_config(config: WhirConfigBuilder, n_vars: int, other: int)
    requires
        0 <= n_vars <= usize::MAX,
    ensures
        ({
            let r = protocol::tuned_config(config, n_vars);
            let least = config.rs_domain_initial_reduction_factor;
            &&& n_vars <= least + 5 ==> r == config
            &&& n_vars > least + 5 ==> {
                &&& r.rs_domain_initial_reduction_factor == least
                &&& r.folding_subsequent == 5
                &&& r.folding_first >= least
                &&& r.folding_first <= 8 || r.folding_first == least
                &&& r.folding_first + 5 <= n_vars
                &&& other <= 8 && other + 5 <= n_vars ==> other <= r.folding_first
                &&& r.max_num_variables_to_send_coeffs <= 12
                &&& r.max_num_variables_to_send_coeffs < n_vars - r.folding_first
                &&& other <= 12 && other < n_vars - r.folding_first ==> other <= r.max_num_variables_to_send_coeffs
            }
        }),
{
}

} // verus!
