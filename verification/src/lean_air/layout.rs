//! Where the values of codewords and of hash rows stand: in the flat data and in the table.
use super::commit;
use super::detection;
use super::hash_table;
use super::honest;
use super::links;
use super::shape::LeanAirShape;
use crate::arith;
use crate::ext::EF;
use crate::field;
use crate::field::{F, TWO_ADICITY};
use crate::ntt;
use crate::poly;
use crate::poseidon;
use crate::poseidon::PoseidonConstants;
use crate::units;
use vstd::arithmetic::power2::*;
use vstd::prelude::*;

verus! {

/// Coefficient by coefficient, the flat data hold the elements one after the other, five places each.
pub proof fn law_flat_holds_coefficients(codeword: Seq<EF>, i: int)
    requires
        0 <= i < codeword.len(),
    ensures
        hash_table::flat(codeword).len() == 5 * codeword.len(),
        hash_table::flat(codeword).subrange(5 * i, 5 * i + 5) == seq![
            codeword[i].c0,
            codeword[i].c1,
            codeword[i].c2,
            codeword[i].c3,
            codeword[i].c4,
        ],
{
    let flat = hash_table::flat(codeword);
    assert forall|j: int| 0 <= j < 5 implies #[trigger] flat[5 * i + j] == codeword[i].limb_spec(j) by {
        assert((5 * i + j) / 5 == i && (5 * i + j) % 5 == j);
    }
    let five = flat.subrange(5 * i, 5 * i + 5);
    assert(five[0] == flat[5 * i + 0] && five[1] == flat[5 * i + 1] && five[2] == flat[5 * i + 2] && five[3] == flat[5
        * i + 3] && five[4] == flat[5 * i + 4]);
    assert(five =~= seq![codeword[i].c0, codeword[i].c1, codeword[i].c2, codeword[i].c3, codeword[i].c4]);
}

/// The flat data of two runs of elements are those of the first and then those of the second.
pub proof fn law_flat_concatenates(a: Seq<EF>, b: Seq<EF>)
    ensures
        hash_table::flat(a + b) == hash_table::flat(a) + hash_table::flat(b),
{
    let left = hash_table::flat(a + b);
    let right = hash_table::flat(a) + hash_table::flat(b);
    assert forall|p: int| 0 <= p < left.len() implies #[trigger] left[p] == right[p] by {
        if p >= 5 * a.len() {
            assert((p - 5 * a.len()) / 5 == p / 5 - a.len() && (p - 5 * a.len()) % 5 == p % 5);
        }
    }
    assert(left =~= right);
}

/// The flat data determine the elements.
pub proof fn law_flat_binds(a: Seq<EF>, b: Seq<EF>)
    requires
        hash_table::flat(a) == hash_table::flat(b),
    ensures
        a == b,
{
    let (x, y) = (hash_table::flat(a), hash_table::flat(b));
    assert(x.len() == 5 * a.len() && y.len() == 5 * b.len());
    assert forall|i: int| 0 <= i < a.len() implies #[trigger] a[i] == b[i] by {
        law_flat_holds_coefficients(a, i);
        law_flat_holds_coefficients(b, i);
        let five = x.subrange(5 * i, 5 * i + 5);
        assert(five[0] == a[i].c0 && five[1] == a[i].c1 && five[2] == a[i].c2 && five[3] == a[i].c3 && five[4]
            == a[i].c4);
        assert(five[0] == b[i].c0 && five[1] == b[i].c1 && five[2] == b[i].c2 && five[3] == b[i].c3 && five[4]
            == b[i].c4);
    }
    assert(a =~= b);
}

/// The data of a set of codewords are the flat data of each, in their order, and determine them.
pub proof fn law_flat_data_binds(a: Seq<Vec<EF>>, b: Seq<Vec<EF>>, i: int)
    requires
        hash_table::flat_data(a) == hash_table::flat_data(b),
        0 <= i < a.len(),
    ensures
        a.len() == b.len(),
        a[i]@ == b[i]@,
{
    let (x, y) = (hash_table::flat_data(a), hash_table::flat_data(b));
    assert(x.len() == a.len() && y.len() == b.len());
    assert(x[i] == hash_table::flat(a[i]@) && y[i] == hash_table::flat(b[i]@));
    law_flat_binds(a[i]@, b[i]@);
}

/// The columns of a table hold, row by row, the input of the hash in the first sixteen and its digest in
/// the last eight. Behind the rows that are used the input is zero.
pub proof fn law_table_holds_inputs_and_digests(
    k: PoseidonConstants,
    shape: LeanAirShape,
    data: Seq<Seq<F>>,
    row: int,
    i: int,
    limb: int,
)
    requires
        shape.valid(),
        links::full_rows(shape, data),
        0 <= row,
        0 <= i < 16,
        0 <= limb < 8,
    ensures
        row < shape.total_rows() ==> hash_table::table_value(k, shape, data, i, row) == commit::row_input(
            k,
            shape,
            data,
            row,
        )[i],
        row >= shape.total_rows() ==> hash_table::table_value(k, shape, data, i, row) == F::of(0),
        hash_table::table_value(k, shape, data, 84 + limb, row) == poseidon::compress_spec(
            k,
            Seq::new(16, |j: int| hash_table::table_value(k, shape, data, j, row)),
        )[limb],
{
    let input = hash_table::table_input(k, shape, data, row);
    if row < shape.total_rows() {
        honest::lemma_row_input_len(k, shape, data, row);
    }
    lemma_trace_lengths(k, input);
    let back = Seq::new(16, |j: int| hash_table::table_value(k, shape, data, j, row));
    assert forall|j: int| 0 <= j < 16 implies #[trigger] back[j] == input[j] by {
        assert(poseidon::trace_spec(k, input)[j] == input[j]);
    }
    assert(back =~= input);
}

proof fn lemma_trace_lengths(k: PoseidonConstants, input: Seq<F>)
    requires
        input.len() == 16,
    ensures
        forall|j: int| 0 <= j < 16 ==> #[trigger] poseidon::trace_spec(k, input)[j] == input[j],
        forall|limb: int|
            0 <= limb < 8 ==> #[trigger] poseidon::trace_spec(k, input)[84 + limb] == poseidon::compress_spec(
                k,
                input,
            )[limb],
{
    let start = poseidon::enter_partial(k, poseidon::beginning_state(k, input, 1));
    poseidon::lemma_partial_cells(k, start, 20);
}

/// A table has the least power of two of rows that leaves one unused.
pub proof fn law_table_rows_are_least(shape: LeanAirShape, j: nat)
    requires
        shape.total_rows() >= 0,
    ensures
        exists|e: nat| #[trigger] pow2(e) == shape.table_rows(),
        shape.table_rows() > shape.total_rows(),
        pow2(j) > shape.total_rows() ==> pow2(j) >= shape.table_rows(),
{
    let n: nat = (shape.total_rows() + 1) as nat;
    arith::lemma_next_pow2(n);
    assert(pow2(arith::log2_ceil_spec(n)) == shape.table_rows());
    if pow2(j) > shape.total_rows() {
        arith::lemma_next_pow2_least(n, j);
    }
}

/// The elements of the deterministic messages count up: by one from a coefficient to the next, by 97
/// from an element to the next and by 1,000,003 from a message to the next, from one on.
pub proof fn law_deterministic_messages_count_up(len: nat, row: int, col: int)
    requires
        0 <= row,
        0 <= col < len - 1,
    ensures
        hash_table::deterministic_message(len, 0)[0].c0 == F::of(1),
        hash_table::deterministic_message(len, row).len() == len,
        ({
            let a = hash_table::deterministic_message(len, row)[col];
            let right = hash_table::deterministic_message(len, row)[col + 1];
            let below = hash_table::deterministic_message(len, row + 1)[col];
            &&& a.c1 == a.c0 + F::of(1)
            &&& a.c2 == a.c1 + F::of(1)
            &&& a.c3 == a.c2 + F::of(1)
            &&& a.c4 == a.c3 + F::of(1)
            &&& right.c0 == a.c0 + F::of(97)
            &&& right.c1 == a.c1 + F::of(97)
            &&& right.c2 == a.c2 + F::of(97)
            &&& right.c3 == a.c3 + F::of(97)
            &&& right.c4 == a.c4 + F::of(97)
            &&& below.c0 == a.c0 + F::of(1_000_003)
            &&& below.c1 == a.c1 + F::of(1_000_003)
            &&& below.c2 == a.c2 + F::of(1_000_003)
            &&& below.c3 == a.c3 + F::of(1_000_003)
            &&& below.c4 == a.c4 + F::of(1_000_003)
        }),
{
    assert forall|limb: int| 0 <= limb < 5 implies {
        &&& #[trigger] hash_table::deterministic_limb(row, col, limb) + F::of(1) == hash_table::deterministic_limb(
            row,
            col,
            limb + 1,
        )
        &&& hash_table::deterministic_limb(row, col, limb) + F::of(97) == hash_table::deterministic_limb(
            row,
            col + 1,
            limb,
        )
        &&& hash_table::deterministic_limb(row, col, limb) + F::of(1_000_003) == hash_table::deterministic_limb(
            row + 1,
            col,
            limb,
        )
    } by {
        let x: int = 1 + row * 1_000_003 + col * 97 + limb;
        field::lemma_of_add(x, 1);
        field::lemma_of_add(x, 97);
        field::lemma_of_add(x, 1_000_003);
        assert((row + 1) * 1_000_003 == row * 1_000_003 + 1_000_003);
        assert((col + 1) * 97 == col * 97 + 97);
    }
    let limb = |l: int| hash_table::deterministic_limb(row, col, l);
    assert(limb(0) == hash_table::deterministic_limb(row, col, 0));
    assert(limb(1) == hash_table::deterministic_limb(row, col, 1));
    assert(limb(2) == hash_table::deterministic_limb(row, col, 2));
    assert(limb(3) == hash_table::deterministic_limb(row, col, 3));
    assert(limb(4) == hash_table::deterministic_limb(row, col, 4));
    assert(hash_table::deterministic_message(len, 0)[0] == hash_table::deterministic_ext_spec(0, 0));
}

/// A codeword holds the values of the polynomial with the coefficients of its message, at the powers, in
/// order, of a root of unity of twice the order of its length.
pub proof fn law_codeword_evaluates_message(message: Seq<EF>, log_m: nat, w: F, t: int)
    requires
        message.len() == pow2(log_m),
        log_m < TWO_ADICITY,
        forall|i: int| 0 <= i < message.len() ==> (#[trigger] message[i]).canonical(),
        w == F::root(log_m + 1),
        0 <= t < 2 * pow2(log_m),
    ensures
        ntt::codeword_spec(message).len() == 2 * pow2(log_m),
        ntt::codeword_spec(message)[t] == poly::poly_at(message, EF::from_base_spec(w.pow(t as nat))),
        w.pow(pow2(log_m)) == F::of(-1),
{
    lemma_pow2_unfold(log_m + 1);
    arith::lemma_next_pow2_of_power(log_m + 1);
    units::lemma_root_half(log_m + 1);
    assert(arith::log2_ceil_spec(2 * message.len()) == log_m + 1);
    detection::lemma_eval_is_at(message, w.pow(t as nat));
    ntt::lemma_eval_ext(message.len(), |j: int| message[j], |j: int| message[j], w.pow(t as nat));
}

/// Row `i` of the data of a set of codewords holds codeword `i`, element by element.
pub proof fn law_flat_data_holds_codewords(codewords: Seq<Vec<EF>>, i: int, j: int)
    requires
        0 <= i < codewords.len(),
        0 <= j < codewords[i]@.len(),
    ensures
        hash_table::flat_data(codewords).len() == codewords.len(),
        hash_table::flat_data(codewords)[i].subrange(5 * j, 5 * j + 5) == seq![
            codewords[i]@[j].c0,
            codewords[i]@[j].c1,
            codewords[i]@[j].c2,
            codewords[i]@[j].c3,
            codewords[i]@[j].c4,
        ],
{
    law_flat_holds_coefficients(codewords[i]@, j);
}

} // verus!
