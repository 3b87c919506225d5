//! Where the elements of a codeword stand once its even places come first.
use super::trace;
use super::witness;
use super::witness::LOG_M;
use crate::ext::EF;
use crate::lean_air::hash_table;
use crate::lean_air::layout;
use vstd::arithmetic::power2::*;
use vstd::prelude::*;

verus! {

/// The place that an element of a codeword of `2 * m` elements is moved to: its pair, in the half of
/// its parity.
pub open spec fn place(p: int, m: int) -> int {
    p / 2 + (p % 2) * m
}

/// No two elements are moved to the same place, and none out of the codeword.
pub proof fn law_places_are_a_permutation(p: int, q: int, m: int)
    requires
        0 <= p < 2 * m,
        0 <= q < 2 * m,
        place(p, m) == place(q, m),
    ensures
        0 <= place(p, m) < 2 * m,
        p == q,
{
    assert((p % 2) * m == 0 || (p % 2) * m == m) by (nonlinear_arith)
        requires
            p % 2 == 0 || p % 2 == 1,
    ;
    assert((q % 2) * m == 0 || (q % 2) * m == m) by (nonlinear_arith)
        requires
            q % 2 == 0 || q % 2 == 1,
    ;
    if p % 2 == 0 {
        assert((p % 2) * m == 0);
    } else {
        assert((p % 2) * m == m) by (nonlinear_arith)
            requires
                p % 2 == 1,
        ;
    }
    if q % 2 == 0 {
        assert((q % 2) * m == 0);
    } else {
        assert((q % 2) * m == m) by (nonlinear_arith)
            requires
                q % 2 == 1,
        ;
    }
}

/// Every element of a codeword stands at its place.
pub proof fn law_elements_are_placed(codeword: Seq<EF>, m: int, p: int)
    requires
        codeword.len() == 2 * m,
        0 <= p < 2 * m,
    ensures
        trace::evens_then_odds(codeword).len() == 2 * m,
        trace::evens_then_odds(codeword)[place(p, m)] == codeword[p],
{
    law_places_are_a_permutation(p, p, m);
    if p % 2 == 0 {
        assert((p % 2) * m == 0);
    } else {
        assert((p % 2) * m == m) by (nonlinear_arith)
            requires
                p % 2 == 1,
        ;
    }
}

/// Of a codeword that two sequences are interleaved into, the even places give back the first and the
/// odd places behind them the second.
pub proof fn law_interleaved_halves_come_apart(codeword: Seq<EF>, evens: Seq<EF>, odds: Seq<EF>)
    requires
        evens.len() == odds.len(),
        codeword.len() == evens.len() + odds.len(),
        forall|j: int| 0 <= j < evens.len() ==> codeword[2 * j] == #[trigger] evens[j],
        forall|j: int| 0 <= j < odds.len() ==> codeword[2 * j + 1] == #[trigger] odds[j],
    ensures
        trace::evens_then_odds(codeword) == evens + odds,
{
    let m: int = evens.len() as int;
    let out = trace::evens_then_odds(codeword);
    assert(codeword.len() as int / 2 == m);
    assert forall|i: int| 0 <= i < 2 * m implies #[trigger] out[i] == (evens + odds)[i] by {
        if i < m {
            assert(codeword[2 * i] == evens[i]);
        } else {
            assert(codeword[2 * (i - m) + 1] == odds[i - m]);
        }
    }
    assert(out =~= evens + odds);
}

/// The coefficients of element `p` of codeword `i`, in the data that are committed to and in those that
/// a program reads.
pub proof fn law_serialised_elements_are_placed(codewords: Seq<Vec<EF>>, i: int, m: int, p: int)
    requires
        0 <= i < codewords.len(),
        codewords[i]@.len() == 2 * m,
        0 <= p < 2 * m,
    ensures
        trace::serialized(codewords).len() == codewords.len(),
        trace::serialized(codewords)[i].len() == 10 * m,
        trace::serialized(codewords)[i].subrange(5 * place(p, m), 5 * place(p, m) + 5) == seq![
            codewords[i]@[p].c0,
            codewords[i]@[p].c1,
            codewords[i]@[p].c2,
            codewords[i]@[p].c3,
            codewords[i]@[p].c4,
        ],
{
    let codeword = codewords[i]@;
    law_elements_are_placed(codeword, m, p);
    law_places_are_a_permutation(p, p, m);
    layout::law_flat_holds_coefficients(trace::evens_then_odds(codeword), place(p, m));
}

/// A program reads the first `2^(LOG_M + 1)` elements of every codeword, each with its coefficients at
/// its place.
pub proof fn law_witness_elements_are_placed(codewords: Seq<Vec<EF>>, i: int, p: int)
    requires
        witness::full(codewords),
        0 <= i < codewords.len(),
        0 <= p < 2 * pow2(LOG_M as nat),
    ensures
        witness::witness_rows(codewords).len() == codewords.len(),
        witness::witness_rows(codewords)[i].len() == 10 * pow2(LOG_M as nat),
        witness::witness_rows(codewords)[i].subrange(
            5 * place(p, pow2(LOG_M as nat) as int),
            5 * place(p, pow2(LOG_M as nat) as int) + 5,
        ) == seq![
            codewords[i]@[p].c0,
            codewords[i]@[p].c1,
            codewords[i]@[p].c2,
            codewords[i]@[p].c3,
            codewords[i]@[p].c4,
        ],
{
    let m: int = pow2(LOG_M as nat) as int;
    assert(codewords[i]@.len() >= 2 * pow2(LOG_M as nat));
    let codeword = codewords[i]@.subrange(0, 2 * m);
    law_elements_are_placed(codeword, m, p);
    law_places_are_a_permutation(p, p, m);
    layout::law_flat_holds_coefficients(trace::evens_then_odds(codeword), place(p, m));
}

/// The data that are committed to determine the codewords.
pub proof fn law_serialisation_binds(a: Seq<Vec<EF>>, b: Seq<Vec<EF>>, i: int, m: int)
    requires
        trace::serialized(a) == trace::serialized(b),
        0 <= i < a.len(),
        a[i]@.len() == 2 * m,
        b[i]@.len() == 2 * m,
    ensures
        a.len() == b.len(),
        a[i]@ == b[i]@,
{
    let (rows_a, rows_b) = (trace::serialized(a), trace::serialized(b));
    assert(rows_a.len() == a.len() && rows_b.len() == b.len());
    let (x, y) = (trace::evens_then_odds(a[i]@), trace::evens_then_odds(b[i]@));
    assert(rows_a[i] == hash_table::flat(x) && rows_b[i] == hash_table::flat(y));
    layout::law_flat_binds(x, y);
    assert forall|p: int| 0 <= p < 2 * m implies #[trigger] a[i]@[p] == b[i]@[p] by {
        law_elements_are_placed(a[i]@, m, p);
        law_elements_are_placed(b[i]@, m, p);
    }
    assert(a[i]@ =~= b[i]@);
}

} // verus!
