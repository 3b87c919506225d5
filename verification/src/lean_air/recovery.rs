//! What a part of a codeword tells of its message.
use super::detection;
use super::parity;
use crate::arith;
use crate::ext;
use crate::ext::EF;
use crate::field;
use crate::field::{F, TWO_ADICITY};
use crate::ntt;
use crate::poly;
use vstd::arithmetic::power2::*;
use vstd::prelude::*;

verus! {

/// Any half of a codeword determines the message: two messages whose codewords agree at as many
/// positions as a message has elements are the same.
pub proof fn law_half_a_codeword_determines(log_m: nat, a: Seq<EF>, b: Seq<EF>, positions: Seq<int>)
    requires
        log_m < TWO_ADICITY,
        a.len() == pow2(log_m),
        b.len() == pow2(log_m),
        forall|i: int| 0 <= i < a.len() ==> (#[trigger] a[i]).canonical(),
        forall|i: int| 0 <= i < b.len() ==> (#[trigger] b[i]).canonical(),
        positions.len() == pow2(log_m),
        forall|i: int| 0 <= i < positions.len() ==> 0 <= #[trigger] positions[i] < 2 * pow2(log_m),
        forall|i: int, j: int| 0 <= i < j < positions.len() ==> #[trigger] positions[i] != #[trigger] positions[j],
        forall|i: int|
            0 <= i < positions.len() ==> ntt::codeword_spec(a)[#[trigger] positions[i]] == ntt::codeword_spec(
                b,
            )[positions[i]],
    ensures
        a == b,
{
    let m: nat = pow2(log_m);
    let w = F::root(log_m + 1);
    lemma_pow2_unfold(log_m + 1);
    arith::lemma_next_pow2_of_power(log_m + 1);
    arith::lemma_pow2_monotone(log_m + 1, TWO_ADICITY as nat);
    lemma2_to64();
    let nodes = Seq::new(m, |i: int| w.pow(positions[i] as nat));
    assert(poly::distinct(nodes)) by {
        assert forall|i: int| 0 <= i < m implies (#[trigger] nodes[i]).canonical() by {
            field::lemma_pow_canonical(w, positions[i] as nat);
        }
        assert forall|i: int, j: int| 0 <= i < j < m implies #[trigger] nodes[i] != #[trigger] nodes[j] by {
            let p: nat = positions[i] as nat;
            let q: nat = positions[j] as nat;
            assert(positions[i] != positions[j]);
            if p < q {
                parity::lemma_powers_differ(log_m + 1, p, q);
            } else {
                parity::lemma_powers_differ(log_m + 1, q, p);
            }
        }
    }
    assert forall|i: int| 0 <= i < m implies poly::poly_at(a, EF::from_base_spec(#[trigger] nodes[i]))
        == poly::poly_at(b, EF::from_base_spec(nodes[i])) by {
        detection::lemma_eval_is_at(a, nodes[i]);
        detection::lemma_eval_is_at(b, nodes[i]);
        assert(ntt::codeword_spec(a)[positions[i]] == ntt::codeword_spec(b)[positions[i]]);
    }
    let d = poly::poly_sub(a, b);
    let points = poly::lifted(nodes);
    poly::lemma_distinct_apart(nodes);
    assert forall|i: int| 0 <= i < m implies poly::poly_at(d, #[trigger] points[i]) == EF::zero_spec() by {
        let x = EF::from_base_spec(nodes[i]);
        assert(poly::poly_at(a, EF::from_base_spec(nodes[i])) == poly::poly_at(b, x));
        poly::lemma_at_sub(a, b, x);
        ext::lemma_sub_self(poly::poly_at(a, x));
    }
    assert forall|i: int| 0 <= i < m implies a[i] == b[i] by {
        assert forall|j: int| 0 <= j < d.len() implies (#[trigger] d[j]).canonical() by {
            ext::lemma_add_canonical(a[j], b[j]);
        }
        poly::law_zeros_determine(d, points, i);
        ext::lemma_sub_zero_iff(a[i], b[i]);
    }
    assert(a =~= b);
}

} // verus!
