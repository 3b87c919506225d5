//! The sumcheck session of the hash constraints.
use super::air;
use super::air::{LeanAirDedicatedHashAir, DEDICATED_HASH_AIR_DEGREE};
use super::degree;
use super::order;
use super::raw_poly;
use super::rounds;
use super::totals;
use crate::arith;
use crate::ext;
use crate::ext::EF;
use crate::field::F;
use crate::mle;
use crate::ntt;
use crate::poly;
use crate::poly::DensePolynomial;
use crate::poseidon::PoseidonConstants;
use crate::sums;
use vstd::arithmetic::div_mod::*;
use vstd::arithmetic::mul::*;
use vstd::arithmetic::power2::*;
use vstd::prelude::*;

verus! {

/// The number of low digits of the row number that are stored in reverse.
pub const DEDICATED_AIR_ENDIANNESS_PIVOT: usize = 12;

/// The number of digits that are stored in reverse, of `n` in all.
pub open spec fn pivot_of(n: int) -> int {
    if n < 12 {
        n
    } else {
        12
    }
}

/// One row of a set of columns.
pub open spec fn row_of(columns: Seq<Vec<EF>>, i: int) -> Seq<EF> {
    Seq::new(columns.len(), |c: int| columns[c]@[i])
}

/// The session of the hash constraints, weighted by the equality polynomial.
#[derive(Debug)]
pub struct DedicatedHashAirSumcheckSession {
    pub multilinears: Vec<Vec<EF>>,
    pub eq_factor: Vec<EF>,
    pub current_unpadded_len: usize,
    pub sum: EF,
    pub missing_mul_factor: EF,
    pub alphas: Vec<EF>,
    pub initial_n_vars: usize,
    pub constraints_eval_at_padding: EF,
    pub rounds_done: usize,
    pub packing_log_width: usize,
}

impl DedicatedHashAirSumcheckSession {
    /// The number of variables that are left.
    pub open spec fn left(self) -> nat {
        (self.initial_n_vars - self.rounds_done) as nat
    }

    /// The number of digits of the row number that are still stored in reverse.
    pub open spec fn digits(self) -> nat {
        if self.rounds_done < pivot_of(self.initial_n_vars as int) {
            (pivot_of(self.initial_n_vars as int) - self.rounds_done) as nat
        } else {
            0
        }
    }

    /// The digit of the stored row number that the round folds.
    pub open spec fn bit(self) -> nat {
        if self.digits() > 0 {
            (self.digits() - 1) as nat
        } else {
            0
        }
    }

    /// Row `i`, in natural order.
    pub open spec fn row(self, i: int) -> Seq<EF> {
        row_of(self.multilinears@, order::natural(self.digits(), i))
    }

    /// The row at `x` on the line through the rows `2 y` and `2 y + 1`.
    pub open spec fn pair_row(self, y: int, x: EF) -> Seq<EF> {
        degree::line_row(
            self.multilinears@,
            order::natural(self.digits(), 2 * y),
            order::natural(self.digits(), 2 * y + 1),
            x,
        )
    }

    /// The number of pairs that are not padding.
    pub open spec fn active_pairs(self) -> nat {
        ((self.current_unpadded_len + 1) / 2) as nat
    }

    /// Whether the shape of the state is right.
    pub open spec fn shaped(self) -> bool {
        &&& self.multilinears@.len() == 92
        &&& self.alphas@.len() >= 76
        &&& self.rounds_done <= self.initial_n_vars
        &&& pow2(self.initial_n_vars as nat) <= usize::MAX
        &&& self.packing_log_width < 12
        &&& self.eq_factor@.len() == self.left()
        &&& forall|c: int| 0 <= c < 92 ==> (#[trigger] self.multilinears@[c])@.len() == pow2(self.left())
        &&& self.current_unpadded_len <= pow2(self.left())
        &&& self.current_unpadded_len as int % (pow2(self.digits()) as int) == 0
    }

    /// Whether every row from `current_unpadded_len` on is the padding row, on which the constraints
    /// combine to `constraints_eval_at_padding`.
    pub open spec fn padded(self, k: PoseidonConstants) -> bool {
        &&& self.current_unpadded_len < pow2(self.left()) ==> self.constraints_eval_at_padding
            == air::combined_constraints(k, self.alphas@, self.row(pow2(self.left()) - 1))
        &&& forall|i: int|
            self.current_unpadded_len <= i < pow2(self.left()) ==> #[trigger] self.row(i) == self.row(
                pow2(self.left()) - 1,
            )
    }

    /// Whether the state is one that the session can be in.
    pub open spec fn wf(self, k: PoseidonConstants) -> bool {
        self.shaped() && self.padded(k)
    }

    /// The constraints at `x` on the lines through all pairs of rows, weighted by the equality
    /// polynomial of the variables that are left.
    pub open spec fn round_at(self, k: PoseidonConstants, x: EF) -> EF {
        sums::sum(
            pow2((self.left() - 1) as nat),
            |y: int|
                air::combined_constraints(k, self.alphas@, self.pair_row(y, x)) * mle::eq_weight(
                    self.eq_factor@.drop_last(),
                    y,
                ),
        ) * self.missing_mul_factor
    }

    /// The constraints on all rows, weighted by the equality polynomial.
    pub open spec fn claim(self, k: PoseidonConstants) -> EF {
        sums::sum(
            pow2(self.left()),
            |i: int|
                air::combined_constraints(k, self.alphas@, self.row(i)) * mle::eq_weight(self.eq_factor@, i),
        ) * self.missing_mul_factor
    }

    /// The number of digits that are stored in reverse at the start.
    pub fn pivot(&self) -> (r: usize)
        ensures
            r == pivot_of(self.initial_n_vars as int),
    {
        if self.initial_n_vars < DEDICATED_AIR_ENDIANNESS_PIVOT {
            self.initial_n_vars
        } else {
            DEDICATED_AIR_ENDIANNESS_PIVOT
        }
    }

    /// The digit of the stored row number that the round folds.
    pub fn folding_bit(&self) -> (r: usize)
        ensures
            r == self.bit(),
    {
        let pivot: usize = self.pivot();
        if self.rounds_done < pivot {
            pivot - 1 - self.rounds_done
        } else {
            0
        }
    }

    /// Whether the digit that the round folds is above those that share a packed word.
    pub fn in_phase_1(&self) -> (r: bool)
        requires
            self.packing_log_width < 12,
            self.rounds_done <= self.initial_n_vars,
        ensures
            r <==> self.rounds_done + self.packing_log_width < pivot_of(self.initial_n_vars as int)
                && self.rounds_done + self.packing_log_width + 1 < self.initial_n_vars,
    {
        let pivot: usize = self.pivot();
        if self.rounds_done >= pivot || self.packing_log_width >= pivot - self.rounds_done {
            return false;
        }
        let w: usize = self.rounds_done + self.packing_log_width;
        w + 1 < self.initial_n_vars
    }

    /// The number of pairs that are not padding.
    pub fn active_count_pairs(&self) -> (r: usize)
        ensures
            r == self.active_pairs(),
    {
        self.current_unpadded_len / 2 + self.current_unpadded_len % 2
    }

    /// The first `len` coordinates of the equality point, those of the digits that are stored in
    /// reverse in reverse.
    pub fn permuted_alphas(&self, len: usize) -> (r: Vec<EF>)
        requires
            len <= self.eq_factor@.len(),
        ensures
            r@ == order::permuted(
                self.eq_factor@.subrange(0, len as int),
                head_len(self.initial_n_vars as int, len as int),
            ),
    {
        let outside: usize = self.initial_n_vars - self.pivot();
        let head: usize = if outside < len {
            outside
        } else {
            len
        };
        let ghost base = self.eq_factor@.subrange(0, len as int);
        let mut out: Vec<EF> = Vec::new();
        let mut i: usize = 0;
        while i < head
            invariant
                i <= head,
                head <= len,
                len <= self.eq_factor@.len(),
                base == self.eq_factor@.subrange(0, len as int),
                out@ == base.subrange(0, i as int),
            decreases head - i,
        {
            out.push(self.eq_factor[i]);
            i = i + 1;
            assert(out@ =~= base.subrange(0, i as int));
        }
        let ghost tail = base.subrange(head as int, len as int);
        let mut j: usize = len;
        assert(out@ =~= base.subrange(0, head as int) + tail.reverse().subrange(0, 0));
        while j > head
            invariant
                head <= j <= len,
                len <= self.eq_factor@.len(),
                base == self.eq_factor@.subrange(0, len as int),
                tail == base.subrange(head as int, len as int),
                out@ == base.subrange(0, head as int) + tail.reverse().subrange(0, len - j),
            decreases j,
        {
            j = j - 1;
            out.push(self.eq_factor[j]);
            assert(tail.reverse()[len - j - 1] == self.eq_factor@[j as int]);
            assert(out@ =~= base.subrange(0, head as int) + tail.reverse().subrange(0, len - j));
        }
        assert(tail.reverse().subrange(0, len - head) =~= tail.reverse());
        out
    }

    /// The weights, at the equality point of the variables that are left, of the pairs that are
    /// padding.
    pub fn padding_eq_sum(&self, unpadded_len: usize) -> (r: EF)
        requires
            self.rounds_done < self.initial_n_vars,
            self.eq_factor@.len() == self.left(),
            unpadded_len <= pow2(self.left()),
        ensures
            r == mle::ones_from(self.padding_point(), unpadded_len as int),
    {
        let len: usize = self.initial_n_vars - self.rounds_done;
        let mut alphas = self.permuted_alphas(len);
        let bit: usize = self.folding_bit();
        assert(self.eq_factor@.subrange(0, len as int) =~= self.eq_factor@);
        alphas.set(len - 1 - bit, EF::zero());
        mle::mle_of_zeros_then_ones(unpadded_len, &alphas)
    }

    /// The permuted equality point with zero for the digit that the round folds.
    pub open spec fn padding_point(self) -> Seq<EF> {
        order::permuted(self.eq_factor@, head_len(self.initial_n_vars as int, self.left() as int)).update(
            self.left() - 1 - self.bit(),
            EF::zero_spec(),
        )
    }
}

/// The number of coordinates, of the first `len`, of digits that are stored as they are.
pub open spec fn head_len(n: int, len: int) -> int {
    if n - pivot_of(n) < len {
        n - pivot_of(n)
    } else {
        len
    }
}

/// How the digits that are stored in reverse, the folded digit and the heads go together.
proof fn lemma_digits(s: DedicatedHashAirSumcheckSession)
    requires
        s.rounds_done < s.initial_n_vars,
    ensures
        s.bit() < s.left(),
        s.digits() <= s.left(),
        s.digits() > 0 ==> s.digits() == s.bit() + 1,
        s.left() - 1 - head_len(s.initial_n_vars as int, s.left() - 1) == s.bit(),
        s.left() - head_len(s.initial_n_vars as int, s.left() as int) == s.digits(),
        0 <= head_len(s.initial_n_vars as int, s.left() - 1),
        0 <= head_len(s.initial_n_vars as int, s.left() as int),
{
}

/// The stored rows of pair `j` are neighbours in natural order.
proof fn lemma_stored_pair(s: DedicatedHashAirSumcheckSession, j: int)
    requires
        s.rounds_done < s.initial_n_vars,
        0 <= j,
    ensures
        raw_poly::pair_lo(s.bit(), j) == order::natural(s.digits(), 2 * order::natural(s.bit(), j)),
        raw_poly::pair_hi(s.bit(), j) == order::natural(s.digits(), 2 * order::natural(s.bit(), j) + 1),
        0 <= order::natural(s.bit(), j),
        order::natural(s.bit(), order::natural(s.bit(), j)) == j,
{
    lemma_digits(s);
    order::lemma_natural_block(s.bit(), j);
    if s.digits() > 0 {
        order::lemma_natural_pair(s.digits(), j);
        lemma_pow2_pos(s.bit());
        order::lemma_block_whole(pow2(s.bit()) as int, j);
        let lo = raw_poly::pair_lo(s.bit(), j);
        lemma_mul_nonnegative(j / (pow2(s.bit()) as int), (2 * pow2(s.bit())) as int);
        order::lemma_natural_block(s.digits(), lo);
        order::lemma_natural_block(s.digits(), raw_poly::pair_hi(s.bit(), j));
    } else {
        order::lemma_pair_of_zero(j);
        order::lemma_natural_zero(j);
        order::lemma_natural_zero(2 * j);
        order::lemma_natural_zero(2 * j + 1);
    }
}

/// The active pairs make whole blocks.
proof fn lemma_active_blocks(s: DedicatedHashAirSumcheckSession) -> (u: nat)
    requires
        s.shaped(),
        s.rounds_done < s.initial_n_vars,
    ensures
        s.active_pairs() == u * pow2(s.bit()),
        s.active_pairs() <= pow2((s.left() - 1) as nat),
        s.digits() > 0 ==> s.current_unpadded_len == 2 * s.active_pairs(),
{
    lemma_digits(s);
    lemma_pow2_unfold(s.left());
    let len: int = s.current_unpadded_len as int;
    let d: int = pow2(s.digits()) as int;
    lemma_pow2_pos(s.digits());
    lemma_fundamental_div_mod(len, d);
    if s.digits() > 0 {
        lemma_pow2_unfold(s.digits());
        let u: int = len / d;
        lemma_div_pos_is_pos(len, d);
        let b: int = pow2(s.bit()) as int;
        assert(len == 2 * (u * b)) by (nonlinear_arith)
            requires
                len == d * u,
                d == 2 * b,
        ;
        u as nat
    } else {
        lemma2_to64();
        assert(pow2(s.bit()) == 1);
        let a: nat = s.active_pairs();
        assert(a * 1 == a);
        a
    }
}

/// The term of pair `y` in natural order.
spec fn pair_value(s: DedicatedHashAirSumcheckSession, k: PoseidonConstants, x: EF) -> spec_fn(int) -> EF {
    |y: int|
        air::combined_constraints(k, s.alphas@, s.pair_row(y, x)) * mle::eq_weight(s.eq_factor@.drop_last(), y)
}

/// The round over the stored pairs is the round over the pairs in natural order.
proof fn lemma_stored_round(s: DedicatedHashAirSumcheckSession, k: PoseidonConstants, weights: Seq<EF>, x: EF)
    requires
        s.wf(k),
        s.rounds_done < s.initial_n_vars,
        weights.len() == pow2((s.left() - 1) as nat),
        forall|j: int|
            0 <= j < weights.len() ==> #[trigger] weights[j] == mle::eq_weight(
                order::permuted(
                    s.eq_factor@.subrange(0, s.left() - 1),
                    head_len(s.initial_n_vars as int, s.left() - 1),
                ),
                j,
            ),
    ensures
        raw_poly::raw_at(k, s.alphas@, s.multilinears@, weights, s.bit(), s.active_pairs(), x) == sums::sum(
            s.active_pairs(),
            pair_value(s, k, x),
        ),
{
    let a = s.active_pairs();
    let u = lemma_active_blocks(s);
    lemma_digits(s);
    let g = pair_value(s, k, x);
    let reversed = |j: int| g(order::natural(s.bit(), j));
    let f = |j: int|
        air::combined_constraints(
            k,
            s.alphas@,
            degree::line_row(
                s.multilinears@,
                raw_poly::pair_lo(s.bit(), j),
                raw_poly::pair_hi(s.bit(), j),
                x,
            ),
        ) * weights[j];
    let rest = s.eq_factor@.drop_last();
    assert(rest =~= s.eq_factor@.subrange(0, s.left() - 1));
    assert forall|j: int| 0 <= j < a implies #[trigger] f(j) == reversed(j) by {
        lemma_stored_pair(s, j);
        order::lemma_permuted_weight(rest, head_len(s.initial_n_vars as int, s.left() - 1), j);
        assert(weights[j] == mle::eq_weight(rest, order::natural(s.bit(), j)));
    }
    sums::lemma_sum_ext(a, f, reversed);
    order::lemma_sum_natural(s.bit(), u, g);
}

/// The padding point is the permuted point of the other variables with zero put in.
proof fn lemma_padding_point(s: DedicatedHashAirSumcheckSession)
    requires
        s.rounds_done < s.initial_n_vars,
        s.eq_factor@.len() == s.left(),
    ensures
        s.padding_point() == order::inserted(
            order::permuted(s.eq_factor@.drop_last(), head_len(s.initial_n_vars as int, s.left() - 1)),
            s.bit(),
            EF::zero_spec(),
        ),
{
    lemma_digits(s);
    let n = s.initial_n_vars as int;
    let h = head_len(n, s.left() as int);
    let rest = s.eq_factor@.drop_last();
    let h1 = head_len(n, s.left() - 1);
    let q = order::permuted(rest, h1);
    let a = s.padding_point();
    let b = order::inserted(q, s.bit(), EF::zero_spec());
    assert(q.len() == s.left() - 1);
    assert(a.len() == b.len());
    assert forall|i: int| 0 <= i < a.len() implies #[trigger] a[i] == b[i] by {
        let place: int = s.left() - 1 - s.bit();
        if i < place {
        } else if i > place {
        }
    }
    assert(a =~= b);
}

/// The weights of the pairs that are padding.
proof fn lemma_padding_sum(s: DedicatedHashAirSumcheckSession, k: PoseidonConstants)
    requires
        s.wf(k),
        s.rounds_done < s.initial_n_vars,
    ensures
        mle::ones_from(s.padding_point(), s.current_unpadded_len as int) == mle::ones_from(
            s.eq_factor@.drop_last(),
            s.active_pairs() as int,
        ),
{
    let z = EF::zero_spec();
    let one = EF::one_spec();
    let n: nat = s.left();
    let m: nat = pow2((n - 1) as nat);
    let a: int = s.active_pairs() as int;
    let len: int = s.current_unpadded_len as int;
    lemma_digits(s);
    lemma_padding_point(s);
    let u = lemma_active_blocks(s);
    let rest = s.eq_factor@.drop_last();
    let h1 = head_len(s.initial_n_vars as int, n - 1);
    let q = order::permuted(rest, h1);
    let p = s.padding_point();
    assert(p.len() == n);
    let f = |i: int| if i < len { z } else { mle::eq_weight(p, i) };
    order::lemma_sum_pairs(s.bit(), n, f);
    let lo = |j: int| f(raw_poly::pair_lo(s.bit(), j));
    let hi = |j: int| f(raw_poly::pair_hi(s.bit(), j));
    let g = |y: int| if y < a { z } else { mle::eq_weight(rest, y) };
    let reversed = |j: int| g(order::natural(s.bit(), j));
    assert forall|j: int| 0 <= j < m implies #[trigger] lo(j) == reversed(j) by {
        order::lemma_inserted_weight(q, s.bit(), z, j);
        order::lemma_permuted_weight(rest, h1, j);
        let w = mle::eq_weight(q, j);
        mle::lemma_eq_canonical(q, j);
        lemma_one_minus_zero();
        ext::lemma_mul_one(w);
        lemma_pair_active(s, k, j, u);
    }
    assert forall|j: int| 0 <= j < m implies #[trigger] hi(j) == z by {
        order::lemma_inserted_weight(q, s.bit(), z, j);
        ext::lemma_mul_zero(mle::eq_weight(q, j));
    }
    sums::lemma_sum_ext(m, lo, reversed);
    sums::lemma_sum_zero(m, hi);
    sums::lemma_sum_canonical(m, reversed);
    ext::lemma_add_zero(sums::sum(m, reversed));
    // All pairs make whole blocks.
    let v: nat = pow2((n - 1 - s.bit()) as nat);
    lemma_pow2_adds((n - 1 - s.bit()) as nat, s.bit());
    order::lemma_sum_natural(s.bit(), v, g);
}

proof fn lemma_one_minus_zero()
    ensures
        EF::one_spec() - EF::zero_spec() == EF::one_spec(),
{
    ext::lemma_constants_canonical();
    ext::lemma_sub_add_cancel(EF::one_spec(), EF::zero_spec());
    ext::lemma_add_canonical(EF::one_spec(), EF::zero_spec());
    ext::lemma_add_zero(EF::one_spec() - EF::zero_spec());
}

/// A stored pair is padding where its lower row is.
proof fn lemma_pair_active(s: DedicatedHashAirSumcheckSession, k: PoseidonConstants, j: int, u: nat)
    requires
        s.wf(k),
        s.rounds_done < s.initial_n_vars,
        s.active_pairs() == u * pow2(s.bit()),
        s.digits() > 0 ==> s.current_unpadded_len == 2 * s.active_pairs(),
        0 <= j,
    ensures
        raw_poly::pair_lo(s.bit(), j) < s.current_unpadded_len <==> order::natural(s.bit(), j) < s.active_pairs(),
{
    let b: int = pow2(s.bit()) as int;
    lemma_pow2_pos(s.bit());
    lemma_digits(s);
    if s.digits() > 0 {
        order::lemma_block_whole(b, j);
        let c: int = j / b;
        let q: int = j % b;
        let a: int = s.active_pairs() as int;
        // Both say that the block of the pair is below u.
        assert(c * (2 * b) + q < 2 * (u * b) <==> c < u) by (nonlinear_arith)
            requires
                0 <= q < b,
                0 <= c,
        ;
        order::lemma_natural_block(s.bit(), j);
        let y: int = order::natural(s.bit(), j);
        order::lemma_block_whole(b, y);
        let r: int = y % b;
        assert(c * b + r < u * b <==> c < u) by (nonlinear_arith)
            requires
                0 <= r < b,
                0 <= c,
        ;
    } else {
        order::lemma_pair_of_zero(j);
        order::lemma_natural_zero(j);
    }
}

/// The line through two rows that are both the padding row stays at the padding row.
proof fn lemma_padding_row(s: DedicatedHashAirSumcheckSession, k: PoseidonConstants, y: int, x: EF)
    requires
        s.wf(k),
        s.rounds_done < s.initial_n_vars,
        s.active_pairs() <= y < pow2((s.left() - 1) as nat),
        forall|c: int, i: int|
            0 <= c < 92 && 0 <= i < s.multilinears@[c]@.len() ==> (#[trigger] s.multilinears@[c]@[i]).canonical(),
    ensures
        s.pair_row(y, x) == s.row(pow2(s.left()) - 1),
        air::combined_constraints(k, s.alphas@, s.pair_row(y, x)) == s.constraints_eval_at_padding,
{
    let m = s.digits();
    lemma_digits(s);
    lemma_pow2_unfold(s.left());
    let last = s.row(pow2(s.left()) - 1);
    assert(s.row(2 * y) == last);
    assert(s.row(2 * y + 1) == last);
    // The indices are in range.
    let rest: nat = (s.left() - m) as nat;
    lemma_pow2_adds(rest, m);
    order::lemma_natural_bound(m, pow2(rest), 2 * y);
    order::lemma_natural_bound(m, pow2(rest), 2 * y + 1);
    let lo = order::natural(m, 2 * y);
    let hi = order::natural(m, 2 * y + 1);
    assert(s.pair_row(y, x) =~= last) by {
        assert forall|c: int| 0 <= c < 92 implies #[trigger] s.pair_row(y, x)[c] == last[c] by {
            let a = s.multilinears@[c]@[lo];
            assert(s.row(2 * y)[c] == a);
            assert(s.row(2 * y + 1)[c] == s.multilinears@[c]@[hi]);
            assert(a.canonical());
            ext::lemma_sub_self(a);
            ext::lemma_mul_zero(x);
            ext::lemma_add_zero(a);
        }
    }
}

/// The whole round from its active pairs and its padding.
proof fn lemma_whole_round(s: DedicatedHashAirSumcheckSession, k: PoseidonConstants, x: EF)
    requires
        s.wf(k),
        s.rounds_done < s.initial_n_vars,
        forall|c: int, i: int|
            0 <= c < 92 && 0 <= i < s.multilinears@[c]@.len() ==> (#[trigger] s.multilinears@[c]@[i]).canonical(),
    ensures
        s.round_at(k, x) == (sums::sum(s.active_pairs(), pair_value(s, k, x)) + s.constraints_eval_at_padding
            * mle::ones_from(s.eq_factor@.drop_last(), s.active_pairs() as int)) * s.missing_mul_factor,
{
    let z = EF::zero_spec();
    let a = s.active_pairs();
    let _ = lemma_active_blocks(s);
    let m: nat = pow2((s.left() - 1) as nat);
    let rest = s.eq_factor@.drop_last();
    let pad = s.constraints_eval_at_padding;
    let g = pair_value(s, k, x);
    let f = |y: int|
        air::combined_constraints(k, s.alphas@, s.pair_row(y, x)) * mle::eq_weight(s.eq_factor@.drop_last(), y);
    sums::lemma_sum_ext(m, f, g);
    let t: nat = (m - a) as nat;
    sums::lemma_sum_split(a, t, g);
    // The weights of the padding.
    let w = |y: int| if y < a { z } else { mle::eq_weight(rest, y) };
    sums::lemma_sum_split(a, t, w);
    sums::lemma_sum_zero(a, w);
    let wt = |i: int| w(a + i);
    sums::lemma_sum_canonical(t, wt);
    ext::lemma_add_zero(sums::sum(t, wt));
    ext::lemma_add_comm(z, sums::sum(t, wt));
    let gt = |i: int| g(a + i);
    let scaled = |i: int| pad * wt(i);
    assert forall|i: int| 0 <= i < t implies #[trigger] gt(i) == scaled(i) by {
        lemma_padding_row(s, k, a + i, x);
    }
    sums::lemma_sum_ext(t, gt, scaled);
    sums::lemma_sum_mul_left(pad, t, wt);
    assert(rest.len() == s.left() - 1);
}

/// The round as a polynomial.
pub open spec fn session_poly(s: DedicatedHashAirSumcheckSession, k: PoseidonConstants) -> Seq<EF> {
    poly::poly_times(
        s.missing_mul_factor,
        poly::poly_sum(
            pow2((s.left() - 1) as nat),
            |y: int|
                poly::poly_times(
                    mle::eq_weight(s.eq_factor@.drop_last(), y),
                    degree::constraint_poly(
                        k,
                        s.alphas@,
                        s.multilinears@,
                        order::natural(s.digits(), 2 * y),
                        order::natural(s.digits(), 2 * y + 1),
                    ),
                ),
        ),
    )
}

/// The round is a polynomial of degree nine.
pub proof fn lemma_session_poly(s: DedicatedHashAirSumcheckSession, k: PoseidonConstants, x: EF)
    requires
        s.multilinears@.len() == 92,
    ensures
        session_poly(s, k).len() <= 10,
        poly::poly_at(session_poly(s, k), x) == s.round_at(k, x),
{
    let n: nat = pow2((s.left() - 1) as nat);
    let f = |y: int|
        poly::poly_times(
            mle::eq_weight(s.eq_factor@.drop_last(), y),
            degree::constraint_poly(
                k,
                s.alphas@,
                s.multilinears@,
                order::natural(s.digits(), 2 * y),
                order::natural(s.digits(), 2 * y + 1),
            ),
        );
    let a = |y: int| poly::poly_at(f(y), x);
    let b = |y: int|
        air::combined_constraints(k, s.alphas@, s.pair_row(y, x)) * mle::eq_weight(s.eq_factor@.drop_last(), y);
    assert forall|y: int| 0 <= y < n implies (#[trigger] f(y)).len() <= 10 && a(y) == b(y) by {
        let lo = order::natural(s.digits(), 2 * y);
        let hi = order::natural(s.digits(), 2 * y + 1);
        let w = mle::eq_weight(s.eq_factor@.drop_last(), y);
        let c = degree::constraint_poly(k, s.alphas@, s.multilinears@, lo, hi);
        degree::lemma_constraint_poly(k, s.alphas@, s.multilinears@, lo, hi, x);
        poly::lemma_at_times(w, c, x);
        ext::lemma_mul_comm(w, poly::poly_at(c, x));
    }
    poly::lemma_poly_sum(n, f, 10, x);
    assert forall|y: int| 0 <= y < n implies #[trigger] a(y) == b(y) by {
        assert(f(y).len() <= 10);
    }
    sums::lemma_sum_ext(n, a, b);
    poly::lemma_at_times(s.missing_mul_factor, poly::poly_sum(n, f), x);
    ext::lemma_mul_comm(s.missing_mul_factor, sums::sum(n, b));
}

/// The claim is the round at zero and one, weighted by the equality polynomial.
pub proof fn lemma_claim_of_round(s: DedicatedHashAirSumcheckSession, k: PoseidonConstants)
    requires
        s.shaped(),
        s.rounds_done < s.initial_n_vars,
        forall|c: int, i: int|
            0 <= c < 92 && 0 <= i < s.multilinears@[c]@.len() ==> (#[trigger] s.multilinears@[c]@[i]).canonical(),
    ensures
        s.claim(k) == (EF::one_spec() - s.eq_factor@.last()) * s.round_at(k, EF::zero_spec()) + s.eq_factor@.last()
            * s.round_at(k, EF::one_spec()),
{
    let one = EF::one_spec();
    let n: nat = pow2((s.left() - 1) as nat);
    lemma_pow2_unfold(s.left());
    lemma_digits(s);
    let alpha = s.eq_factor@.last();
    let rest = s.eq_factor@.drop_last();
    let m = s.missing_mul_factor;
    let f = |i: int| air::combined_constraints(k, s.alphas@, s.row(i)) * mle::eq_weight(s.eq_factor@, i);
    sums::lemma_sum_even_odd(n, f);
    let ev = |y: int| f(2 * y);
    let od = |y: int| f(2 * y + 1);
    let r0 = |y: int| air::combined_constraints(k, s.alphas@, s.pair_row(y, EF::zero_spec())) * mle::eq_weight(rest, y);
    let r1 = |y: int| air::combined_constraints(k, s.alphas@, s.pair_row(y, EF::one_spec())) * mle::eq_weight(rest, y);
    let c0 = |y: int| r0(y) * (one - alpha);
    let c1 = |y: int| r1(y) * alpha;
    assert forall|y: int| 0 <= y < n implies #[trigger] ev(y) == c0(y) by {
        lemma_pair_ends(s, y);
        assert((2 * y) / 2 == y && (2 * y) % 2 == 0);
        ext::lemma_mul_assoc(
            air::combined_constraints(k, s.alphas@, s.row(2 * y)),
            mle::eq_weight(rest, y),
            one - alpha,
        );
    }
    assert forall|y: int| 0 <= y < n implies #[trigger] od(y) == c1(y) by {
        lemma_pair_ends(s, y);
        assert((2 * y + 1) / 2 == y && (2 * y + 1) % 2 == 1);
        ext::lemma_mul_assoc(
            air::combined_constraints(k, s.alphas@, s.row(2 * y + 1)),
            mle::eq_weight(rest, y),
            alpha,
        );
    }
    sums::lemma_sum_ext(n, ev, c0);
    sums::lemma_sum_ext(n, od, c1);
    sums::lemma_sum_mul_right(n, r0, one - alpha);
    sums::lemma_sum_mul_right(n, r1, alpha);
    let s0 = sums::sum(n, r0);
    let s1 = sums::sum(n, r1);
    // (s0 (1 - alpha) + s1 alpha) m
    ext::lemma_mul_distrib_left(s0 * (one - alpha), s1 * alpha, m);
    ext::lemma_mul_comm(s0, one - alpha);
    ext::lemma_mul_assoc(one - alpha, s0, m);
    ext::lemma_mul_comm(s1, alpha);
    ext::lemma_mul_assoc(alpha, s1, m);
}

/// The line through a pair of rows starts at one and ends at the other.
proof fn lemma_pair_ends(s: DedicatedHashAirSumcheckSession, y: int)
    requires
        s.shaped(),
        s.rounds_done < s.initial_n_vars,
        0 <= y < pow2((s.left() - 1) as nat),
        forall|c: int, i: int|
            0 <= c < 92 && 0 <= i < s.multilinears@[c]@.len() ==> (#[trigger] s.multilinears@[c]@[i]).canonical(),
    ensures
        s.pair_row(y, EF::zero_spec()) == s.row(2 * y),
        s.pair_row(y, EF::one_spec()) == s.row(2 * y + 1),
{
    let m = s.digits();
    lemma_digits(s);
    lemma_pow2_unfold(s.left());
    let rest: nat = (s.left() - m) as nat;
    lemma_pow2_adds(rest, m);
    order::lemma_natural_bound(m, pow2(rest), 2 * y);
    order::lemma_natural_bound(m, pow2(rest), 2 * y + 1);
    let lo = order::natural(m, 2 * y);
    let hi = order::natural(m, 2 * y + 1);
    assert forall|c: int| 0 <= c < 92 implies #[trigger] s.pair_row(y, EF::zero_spec())[c] == s.row(2 * y)[c] by {
        assert(s.multilinears@[c]@[lo].canonical());
        rounds::lemma_line_nodes(s.multilinears@[c]@[lo], s.multilinears@[c]@[hi]);
    }
    assert forall|c: int| 0 <= c < 92 implies #[trigger] s.pair_row(y, EF::one_spec())[c] == s.row(2 * y + 1)[c] by {
        assert(s.multilinears@[c]@[lo].canonical());
        assert(s.multilinears@[c]@[hi].canonical());
        rounds::lemma_line_nodes(s.multilinears@[c]@[lo], s.multilinears@[c]@[hi]);
    }
    assert(s.pair_row(y, EF::zero_spec()) =~= s.row(2 * y));
    assert(s.pair_row(y, EF::one_spec()) =~= s.row(2 * y + 1));
}

/// The round at `0, 2, ..., 9` over the stored pairs, computed with the split by degree while packed
/// words are folded whole.
pub fn dedicated_hash_compute_raw_poly(
    k: &PoseidonConstants,
    columns: &Vec<Vec<EF>>,
    weights: &Vec<EF>,
    alphas: &Vec<EF>,
    n_vars: usize,
    fold_bit: usize,
    active_count_pairs: usize,
    packed: bool,
) -> (r: Vec<EF>)
    requires
        columns@.len() == 92,
        fold_bit < n_vars,
        pow2(n_vars as nat) <= usize::MAX,
        forall|c: int| 0 <= c < columns@.len() ==> (#[trigger] columns@[c])@.len() == pow2(n_vars as nat),
        active_count_pairs <= pow2((n_vars - 1) as nat),
        weights@.len() >= active_count_pairs,
        alphas@.len() >= 76,
    ensures
        r@.len() == 9,
        forall|i: int|
            0 <= i < 9 ==> #[trigger] r@[i] == raw_poly::raw_at(
                *k,
                alphas@,
                columns@,
                weights@,
                fold_bit as nat,
                active_count_pairs as nat,
                poly::node(raw_poly::raw_node(i)),
            ),
{
    if packed {
        raw_poly::dedicated_hash_compute_raw_poly_degree_split(
            k,
            columns,
            weights,
            alphas,
            n_vars,
            fold_bit,
            active_count_pairs,
        )
    } else {
        raw_poly::dedicated_hash_compute_raw_poly_full(
            k,
            columns,
            weights,
            alphas,
            n_vars,
            fold_bit,
            active_count_pairs,
        )
    }
}

/// Row `i` of a set of columns.
pub fn dedicated_air_column_evals(columns: &Vec<Vec<EF>>, i: usize) -> (r: Vec<EF>)
    requires
        forall|c: int| 0 <= c < columns@.len() ==> i < (#[trigger] columns@[c])@.len(),
    ensures
        r@ == row_of(columns@, i as int),
{
    let mut out: Vec<EF> = Vec::new();
    let mut c: usize = 0;
    while c < columns.len()
        invariant
            c <= columns@.len(),
            forall|c: int| 0 <= c < columns@.len() ==> i < (#[trigger] columns@[c])@.len(),
            out@.len() == c,
            forall|m: int| 0 <= m < c ==> #[trigger] out@[m] == columns@[m]@[i as int],
        decreases columns@.len() - c,
    {
        let value = columns[c][i];
        out.push(value);
        c = c + 1;
    }
    assert(out@ =~= row_of(columns@, i as int));
    out
}

impl DedicatedHashAirSumcheckSession {
    /// The name of the session.
    pub fn label(&self) -> (r: &'static str)
        ensures
            r@ == "dedicated hash air"@,
    {
        "dedicated hash air"
    }

    /// The number of variables at the start.
    pub fn initial_n_vars(&self) -> (r: usize)
        ensures
            r == self.initial_n_vars,
    {
        self.initial_n_vars
    }

    /// The claimed sum.
    pub fn sum(&self) -> (r: EF)
        ensures
            r == self.sum,
    {
        self.sum
    }

    /// The degree of a round, without the equality polynomial.
    pub fn bare_degree(&self) -> (r: usize)
        ensures
            r == 9,
    {
        DEDICATED_HASH_AIR_DEGREE
    }

    /// The challenge of the equality polynomial.
    pub fn eq_alpha(&self) -> (r: EF)
        requires
            self.eq_factor@.len() > 0,
        ensures
            r == self.eq_factor@.last(),
    {
        self.eq_factor[self.eq_factor.len() - 1]
    }

    /// The polynomial of the round, none where the challenge of the equality polynomial is
    /// zero. It is computed at `0, 2, ..., 9`; at one it takes the value that the claimed sum
    /// asks for. With the claim for the sum, it is the round everywhere.
    pub fn compute_bare_round_poly(&self, k: &PoseidonConstants) -> (r: Option<DensePolynomial>)
        requires
            self.wf(*k),
            self.rounds_done < self.initial_n_vars,
        ensures
            r is Some <==> self.eq_factor@.last() != EF::zero_spec(),
            r matches Some(p) ==> {
                &&& p.coeffs@.len() == 10
                &&& forall|i: int|
                    0 <= i < 10 && i != 1 ==> poly::poly_at(p.coeffs@, #[trigger] poly::node(i)) == self.round_at(
                        *k,
                        poly::node(i),
                    )
                &&& (EF::one_spec() - self.eq_factor@.last()) * poly::poly_at(p.coeffs@, EF::zero_spec())
                    + self.eq_factor@.last() * poly::poly_at(p.coeffs@, EF::one_spec()) == self.sum
                &&& self.sum == self.claim(*k) ==> forall|x: EF|
                    #[trigger] poly::poly_at(p.coeffs@, x) == self.round_at(*k, x)
            },
    {
        let alpha = self.eq_alpha();
        let inverse = match alpha.try_inverse() {
            Some(inverse) => inverse,
            None => {
                return None;
            },
        };
        let n_vars: usize = self.initial_n_vars - self.rounds_done;
        proof {
            arith::lemma_pow2_monotone(n_vars as nat, self.initial_n_vars as nat);
            arith::lemma_pow2_monotone((n_vars - 1) as nat, n_vars as nat);
            let _ = lemma_active_blocks(*self);
            lemma_digits(*self);
        }
        let point = self.permuted_alphas(n_vars - 1);
        let weights = mle::eval_eq(&point);
        let active: usize = self.active_count_pairs();
        let padding = if active < weights.len() {
            self.constraints_eval_at_padding.mul(self.padding_eq_sum(self.current_unpadded_len))
        } else {
            EF::zero()
        };
        let raw = dedicated_hash_compute_raw_poly(
            k,
            &self.multilinears,
            &weights,
            &self.alphas,
            n_vars,
            self.folding_bit(),
            active,
            self.in_phase_1(),
        );
        rounds::columns_canonical(&self.multilinears);
        proof {
            lemma_padding_sum(*self, *k);
            if active == weights@.len() {
                let rest = self.eq_factor@.drop_last();
                let w = |i: int| if i < active { EF::zero_spec() } else { mle::eq_weight(rest, i) };
                sums::lemma_sum_zero(active as nat, w);
                ext::lemma_mul_zero(self.constraints_eval_at_padding);
            }
            assert(padding == self.constraints_eval_at_padding * mle::ones_from(
                self.eq_factor@.drop_last(),
                active as int,
            ));
        }
        let first = raw[0].add(padding).mul(self.missing_mul_factor);
        let rest_of_sum = self.sum.sub(EF::one().sub(alpha).mul(first));
        let p_at_1 = rest_of_sum.mul(inverse);
        let mut evals: Vec<EF> = Vec::new();
        evals.push(first);
        evals.push(p_at_1);
        let mut i: usize = 1;
        while i < 9
            invariant
                1 <= i <= 9,
                raw@.len() == 9,
                evals@.len() == i + 1,
                evals@[0] == first,
                evals@[1] == p_at_1,
                forall|m: int|
                    1 <= m < i ==> #[trigger] evals@[m + 1] == (raw@[m] + padding) * self.missing_mul_factor,
            decreases 9 - i,
        {
            let value = raw[i].add(padding).mul(self.missing_mul_factor);
            evals.push(value);
            i = i + 1;
        }
        let p = DensePolynomial::interpolate(&evals);
        self.sum.assert_canonical();
        proof {
            let one = EF::one_spec();
            assert forall|m: int| 0 <= m < 9 implies (#[trigger] raw@[m] + padding) * self.missing_mul_factor
                == self.round_at(*k, poly::node(raw_poly::raw_node(m))) by {
                let x = poly::node(raw_poly::raw_node(m));
                lemma_stored_round(*self, *k, weights@, x);
                lemma_whole_round(*self, *k, x);
            }
            assert forall|i: int| 0 <= i < 10 && i != 1 implies poly::poly_at(p.coeffs@, #[trigger] poly::node(i))
                == self.round_at(*k, poly::node(i)) by {
                assert(poly::poly_at(p.coeffs@, poly::node(i)) == evals@[i]);
                if i == 0 {
                    assert((raw@[0] + padding) * self.missing_mul_factor == self.round_at(
                        *k,
                        poly::node(raw_poly::raw_node(0)),
                    ));
                } else {
                    let m: int = i - 1;
                    assert(evals@[m + 1] == (raw@[m] + padding) * self.missing_mul_factor);
                }
            }
            assert(poly::poly_at(p.coeffs@, poly::node(0)) == evals@[0]);
            assert(poly::poly_at(p.coeffs@, poly::node(1)) == evals@[1]);
            // alpha p(1) is what the sum leaves.
            let u = (one - alpha) * first;
            ext::lemma_add_canonical(self.sum, u);
            ext::lemma_mul_comm(alpha, p_at_1);
            ext::lemma_mul_assoc(rest_of_sum, inverse, alpha);
            ext::lemma_mul_comm(inverse, alpha);
            ext::lemma_mul_one(rest_of_sum);
            ext::lemma_sub_add_cancel(self.sum, u);
            ext::lemma_add_comm(rest_of_sum, u);
            if self.sum == self.claim(*k) {
                lemma_claim_of_round(*self, *k);
                let r1 = self.round_at(*k, one);
                assert(first == self.round_at(*k, poly::node(0)));
                ext::lemma_mul_canonical(alpha, r1);
                ext::lemma_add_comm(u, alpha * r1);
                ext::lemma_sub_add_cancel(alpha * r1, u);
                assert(rest_of_sum == alpha * r1);
                ext::lemma_mul_comm(alpha, r1);
                ext::lemma_mul_assoc(r1, alpha, inverse);
                lemma_round_canonical(*self, *k, one);
                ext::lemma_mul_one(r1);
                assert(p_at_1 == r1);
                assert forall|x: EF| #[trigger] poly::poly_at(p.coeffs@, x) == self.round_at(*k, x) by {
                    let q = session_poly(*self, *k);
                    lemma_session_poly(*self, *k, x);
                    assert forall|i: int| 0 <= i < 10 implies poly::poly_at(p.coeffs@, #[trigger] poly::node(i))
                        == poly::poly_at(q, poly::node(i)) by {
                        lemma_session_poly(*self, *k, poly::node(i));
                        if i != 1 {
                            assert(poly::poly_at(p.coeffs@, poly::node(i)) == self.round_at(*k, poly::node(i)));
                        }
                    }
                    poly::lemma_consecutive_unique(p.coeffs@, q, 10, x);
                }
            }
        }
        Some(p)
    }
}

proof fn lemma_round_canonical(s: DedicatedHashAirSumcheckSession, k: PoseidonConstants, x: EF)
    ensures
        s.round_at(k, x).canonical(),
{
    let f = |y: int|
        air::combined_constraints(k, s.alphas@, s.pair_row(y, x)) * mle::eq_weight(s.eq_factor@.drop_last(), y);
    ext::lemma_mul_canonical(sums::sum(pow2((s.left() - 1) as nat), f), s.missing_mul_factor);
}

/// Sets the variable of the digit `bit` to `challenge` in every column.
pub fn fold_at_bit(columns: &Vec<Vec<EF>>, challenge: EF, bit: usize, n_vars: usize) -> (r: Vec<Vec<EF>>)
    requires
        bit < n_vars,
        pow2(n_vars as nat) <= usize::MAX,
        forall|c: int| 0 <= c < columns@.len() ==> (#[trigger] columns@[c])@.len() == pow2(n_vars as nat),
    ensures
        r@.len() == columns@.len(),
        forall|c: int| 0 <= c < r@.len() ==> (#[trigger] r@[c])@.len() == pow2((n_vars - 1) as nat),
        forall|c: int, j: int|
            0 <= c < r@.len() && 0 <= j < pow2((n_vars - 1) as nat) ==> #[trigger] r@[c]@[j] == rounds::line(
                columns@[c]@[raw_poly::pair_lo(bit as nat, j)],
                columns@[c]@[raw_poly::pair_hi(bit as nat, j)],
                challenge,
            ),
{
    proof {
        arith::lemma_pow2_monotone(bit as nat, n_vars as nat);
        arith::lemma_pow2_monotone((n_vars - 1) as nat, n_vars as nat);
    }
    let stride: usize = arith::power_of_two(bit);
    let half_len: usize = arith::power_of_two(n_vars - 1);
    let mut out: Vec<Vec<EF>> = Vec::new();
    let mut c: usize = 0;
    while c < columns.len()
        invariant
            c <= columns@.len(),
            bit < n_vars,
            pow2(n_vars as nat) <= usize::MAX,
            stride == pow2(bit as nat),
            half_len == pow2((n_vars - 1) as nat),
            forall|c: int| 0 <= c < columns@.len() ==> (#[trigger] columns@[c])@.len() == pow2(n_vars as nat),
            out@.len() == c,
            forall|m: int| 0 <= m < c ==> (#[trigger] out@[m])@.len() == half_len,
            forall|m: int, j: int|
                0 <= m < c && 0 <= j < half_len ==> #[trigger] out@[m]@[j] == rounds::line(
                    columns@[m]@[raw_poly::pair_lo(bit as nat, j)],
                    columns@[m]@[raw_poly::pair_hi(bit as nat, j)],
                    challenge,
                ),
        decreases columns@.len() - c,
    {
        let column = &columns[c];
        let mut folded: Vec<EF> = Vec::new();
        let mut j: usize = 0;
        while j < half_len
            invariant
                j <= half_len,
                bit < n_vars,
                pow2(n_vars as nat) <= usize::MAX,
                stride == pow2(bit as nat),
                half_len == pow2((n_vars - 1) as nat),
                column@.len() == pow2(n_vars as nat),
                folded@.len() == j,
                forall|m: int|
                    0 <= m < j ==> #[trigger] folded@[m] == rounds::line(
                        column@[raw_poly::pair_lo(bit as nat, m)],
                        column@[raw_poly::pair_hi(bit as nat, m)],
                        challenge,
                    ),
            decreases half_len - j,
        {
            let (lo, hi) = raw_poly::pair_indices(stride, j, Ghost(bit as nat), Ghost(n_vars as nat));
            let a = column[lo];
            folded.push(a.add(challenge.mul(column[hi].sub(a))));
            j = j + 1;
        }
        out.push(folded);
        c = c + 1;
    }
    out
}

/// The state of the session after a challenge.
pub open spec fn after_challenge(
    before: DedicatedHashAirSumcheckSession,
    after: DedicatedHashAirSumcheckSession,
    challenge: EF,
) -> bool {
    &&& after.rounds_done == before.rounds_done + 1
    &&& after.initial_n_vars == before.initial_n_vars
    &&& after.alphas@ == before.alphas@
    &&& after.packing_log_width == before.packing_log_width
    &&& after.constraints_eval_at_padding == before.constraints_eval_at_padding
    &&& after.eq_factor@ == before.eq_factor@.drop_last()
    &&& after.current_unpadded_len == before.active_pairs()
    &&& after.missing_mul_factor == before.missing_mul_factor * rounds::eq_step(before.eq_factor@.last(), challenge)
    &&& forall|y: int|
        0 <= y < pow2((before.left() - 1) as nat) ==> #[trigger] after.row(y) == before.pair_row(y, challenge)
}

/// A challenge leaves the padding as it is.
proof fn lemma_padding_after(
    before: DedicatedHashAirSumcheckSession,
    after: DedicatedHashAirSumcheckSession,
    challenge: EF,
    k: PoseidonConstants,
)
    requires
        before.wf(k),
        before.rounds_done < before.initial_n_vars,
        after_challenge(before, after, challenge),
        forall|c: int, i: int|
            0 <= c < 92 && 0 <= i < before.multilinears@[c]@.len() ==> (
            #[trigger] before.multilinears@[c]@[i]).canonical(),
    ensures
        after.padded(k),
{
    let n: nat = pow2(after.left());
    lemma_pow2_pos(after.left());
    let last: int = n - 1;
    if after.current_unpadded_len < n {
        assert(after.row(last) == before.pair_row(last, challenge));
        lemma_padding_row(before, k, last, challenge);
    }
    assert forall|i: int| after.current_unpadded_len <= i < n implies #[trigger] after.row(i) == after.row(last) by {
        assert(after.row(i) == before.pair_row(i, challenge));
        assert(after.row(last) == before.pair_row(last, challenge));
        lemma_padding_row(before, k, i, challenge);
        lemma_padding_row(before, k, last, challenge);
    }
}

/// A challenge leaves the claim of the round at the challenge, times the factor of the equality
/// polynomial.
pub proof fn lemma_claim_after(
    before: DedicatedHashAirSumcheckSession,
    after: DedicatedHashAirSumcheckSession,
    challenge: EF,
    k: PoseidonConstants,
)
    requires
        before.rounds_done < before.initial_n_vars,
        after_challenge(before, after, challenge),
    ensures
        after.claim(k) == before.round_at(k, challenge) * rounds::eq_step(before.eq_factor@.last(), challenge),
{
    let n: nat = pow2(after.left());
    let rest = before.eq_factor@.drop_last();
    let step = rounds::eq_step(before.eq_factor@.last(), challenge);
    let f = |y: int|
        air::combined_constraints(k, before.alphas@, before.pair_row(y, challenge)) * mle::eq_weight(
            before.eq_factor@.drop_last(),
            y,
        );
    let g = |i: int| air::combined_constraints(k, after.alphas@, after.row(i)) * mle::eq_weight(after.eq_factor@, i);
    assert forall|y: int| 0 <= y < n implies #[trigger] f(y) == g(y) by {
        assert(after.row(y) == before.pair_row(y, challenge));
    }
    sums::lemma_sum_ext(n, f, g);
    ext::lemma_mul_assoc(sums::sum(n, f), before.missing_mul_factor, step);
}

impl DedicatedHashAirSumcheckSession {
    /// Sets the lowest variable to `challenge`. With the value of the round there, the new sum is the
    /// claim that is left.
    pub fn process_challenge(&mut self, challenge: EF, bare_poly: &DensePolynomial)
        requires
            old(self).shaped(),
            old(self).rounds_done < old(self).initial_n_vars,
        ensures
            final(self).shaped(),
            after_challenge(*old(self), *final(self), challenge),
            final(self).sum == poly::poly_at(bare_poly.coeffs@, challenge) * rounds::eq_step(
                old(self).eq_factor@.last(),
                challenge,
            ),
            forall|k: PoseidonConstants| #[trigger] old(self).padded(k) ==> final(self).padded(k),
            forall|k: PoseidonConstants|
                poly::poly_at(bare_poly.coeffs@, challenge) == old(self).round_at(k, challenge) ==> final(self).sum
                    == #[trigger] final(self).claim(k),
    {
        let ghost before = *self;
        let alpha = self.eq_alpha();
        let step = rounds::eq_step_eval(alpha, challenge);
        let n_vars: usize = self.initial_n_vars - self.rounds_done;
        let bit: usize = self.folding_bit();
        let active: usize = self.active_count_pairs();
        rounds::columns_canonical(&self.multilinears);
        proof {
            lemma_digits(before);
            arith::lemma_pow2_monotone(n_vars as nat, self.initial_n_vars as nat);
        }
        let folded = fold_at_bit(&self.multilinears, challenge, bit, n_vars);
        self.sum = bare_poly.evaluate(challenge).mul(step);
        self.missing_mul_factor = self.missing_mul_factor.mul(step);
        self.multilinears = folded;
        self.current_unpadded_len = active;
        self.rounds_done = self.rounds_done + 1;
        let _ = self.eq_factor.pop();
        proof {
            let u = lemma_active_blocks(before);
            // What was the folded digit is now the number of digits stored in reverse.
            assert(self.digits() == before.bit());
            lemma_pow2_pos(before.bit());
            lemma_mod_multiples_basic(u as int, pow2(before.bit()) as int);
            assert(self.eq_factor@ =~= before.eq_factor@.drop_last());
            assert forall|y: int| 0 <= y < pow2(self.left()) implies #[trigger] self.row(y) == before.pair_row(
                y,
                challenge,
            ) by {
                let j = order::natural(self.digits(), y);
                let rest: nat = (self.left() - self.digits()) as nat;
                lemma_pow2_adds(rest, self.digits());
                order::lemma_natural_bound(self.digits(), pow2(rest), y);
                order::lemma_natural_block(self.digits(), y);
                lemma_stored_pair(before, j);
                assert forall|c: int| 0 <= c < 92 implies #[trigger] self.row(y)[c] == before.pair_row(
                    y,
                    challenge,
                )[c] by {
                    assert(self.multilinears@[c]@[j] == self.row(y)[c]);
                }
                assert(self.row(y) =~= before.pair_row(y, challenge));
            }
            assert forall|k: PoseidonConstants| #[trigger] before.padded(k) implies self.padded(k) by {
                lemma_padding_after(before, *self, challenge, k);
            }
            assert forall|k: PoseidonConstants|
                poly::poly_at(bare_poly.coeffs@, challenge) == before.round_at(k, challenge) implies self.sum
                == #[trigger] self.claim(k) by {
                lemma_claim_after(before, *self, challenge, k);
            }
        }
    }

    /// The first stored row: all that is left when every variable is set.
    pub fn final_column_evals(&self) -> (r: Vec<EF>)
        requires
            self.shaped(),
        ensures
            r@ == row_of(self.multilinears@, 0),
            r@ == self.row(0),
    {
        proof {
            lemma_pow2_pos(self.left());
            lemma_pow2_pos(self.digits());
            order::lemma_natural_parts(self.digits(), 0, 0);
            lemma_reversed_zero(self.digits());
            assert(0 * pow2(self.digits()) + 0 == 0);
        }
        dedicated_air_column_evals(&self.multilinears, 0)
    }

    /// Starts the session of a table of which the rows from `non_padded_n_rows` on are equal.
    pub fn new(
        k: &PoseidonConstants,
        columns: &Vec<Vec<F>>,
        eq_factor: Vec<EF>,
        alphas: Vec<EF>,
        non_padded_n_rows: usize,
        packing_log_width: usize,
    ) -> (r: DedicatedHashAirSumcheckSession)
        requires
            columns@.len() == 92,
            pow2(eq_factor@.len()) <= usize::MAX,
            forall|c: int| 0 <= c < 92 ==> (#[trigger] columns@[c])@.len() == pow2(eq_factor@.len()),
            alphas@.len() >= 76,
            packing_log_width < pivot_of(eq_factor@.len() as int),
            non_padded_n_rows <= pow2(eq_factor@.len()),
            forall|c: int, i: int|
                0 <= c < 92 && non_padded_n_rows <= i < pow2(eq_factor@.len()) ==> #[trigger] columns@[c]@[i]
                    == columns@[c]@[pow2(eq_factor@.len()) - 1],
        ensures
            r.wf(*k),
            r.initial_n_vars == eq_factor@.len(),
            r.rounds_done == 0,
            r.eq_factor@ == eq_factor@,
            r.alphas@ == alphas@,
            r.packing_log_width == packing_log_width,
            r.sum == EF::zero_spec(),
            r.missing_mul_factor == EF::one_spec(),
            r.current_unpadded_len == next_multiple(
                non_padded_n_rows as int,
                pow2(pivot_of(eq_factor@.len() as int) as nat) as int,
            ),
            r.constraints_eval_at_padding == air::combined_constraints(
                *k,
                alphas@,
                totals::lifted_row(columns@, pow2(eq_factor@.len()) - 1),
            ),
            forall|i: int|
                0 <= i < pow2(eq_factor@.len()) ==> #[trigger] r.row(i) == totals::lifted_row(columns@, i),
    {
        let n_vars: usize = eq_factor.len();
        let pivot: usize = if n_vars < DEDICATED_AIR_ENDIANNESS_PIVOT {
            n_vars
        } else {
            DEDICATED_AIR_ENDIANNESS_PIVOT
        };
        proof {
            arith::lemma_pow2_monotone(pivot as nat, n_vars as nat);
            lemma_pow2_pos(n_vars as nat);
            lemma_pow2_pos(pivot as nat);
        }
        let chunk: usize = arith::power_of_two(pivot);
        let total: usize = arith::power_of_two(n_vars);
        let last_point = lifted_row_at(columns, total - 1);
        let air = LeanAirDedicatedHashAir;
        let constraints_eval_at_padding = air.eval_extension(k, &last_point, &alphas);
        let multilinears = reverse_columns(columns, n_vars, pivot, chunk);
        proof {
            lemma_next_multiple(non_padded_n_rows as int, chunk as int);
            // The number of rows is a multiple of the chunk too.
            lemma_pow2_adds((n_vars - pivot) as nat, pivot as nat);
            lemma_multiple_below(
                non_padded_n_rows as int,
                chunk as int,
                pow2((n_vars - pivot) as nat) as int,
            );
        }
        let rest: usize = non_padded_n_rows % chunk;
        let padded_n_rows: usize = if rest == 0 {
            non_padded_n_rows
        } else {
            non_padded_n_rows + (chunk - rest)
        };
        let r = DedicatedHashAirSumcheckSession {
            multilinears,
            eq_factor,
            current_unpadded_len: padded_n_rows,
            sum: EF::zero(),
            missing_mul_factor: EF::one(),
            alphas,
            initial_n_vars: n_vars,
            constraints_eval_at_padding,
            rounds_done: 0,
            packing_log_width,
        };
        proof {
            assert forall|i: int| 0 <= i < total implies #[trigger] r.row(i) == totals::lifted_row(columns@, i) by {
                let j = order::natural(pivot as nat, i);
                lemma_pow2_adds((n_vars - pivot) as nat, pivot as nat);
                order::lemma_natural_bound(pivot as nat, pow2((n_vars - pivot) as nat), i);
                order::lemma_natural_block(pivot as nat, i);
                assert forall|c: int| 0 <= c < 92 implies #[trigger] r.row(i)[c] == totals::lifted_row(
                    columns@,
                    i,
                )[c] by {
                    assert(r.multilinears@[c]@[j] == EF::from_base_spec(
                        columns@[c]@[order::natural(pivot as nat, j)],
                    ));
                }
                assert(r.row(i) =~= totals::lifted_row(columns@, i));
            }
            assert forall|i: int| padded_n_rows <= i < total implies #[trigger] r.row(i) == r.row(total - 1) by {
                assert(r.row(i) == totals::lifted_row(columns@, i));
                assert(r.row(total - 1) == totals::lifted_row(columns@, total - 1));
                assert forall|c: int| 0 <= c < 92 implies #[trigger] totals::lifted_row(columns@, i)[c]
                    == totals::lifted_row(columns@, total - 1)[c] by {
                    assert(columns@[c]@[i] == columns@[c]@[total - 1]);
                }
                assert(totals::lifted_row(columns@, i) =~= totals::lifted_row(columns@, total - 1));
            }
        }
        r
    }
}

proof fn lemma_reversed_zero(m: nat)
    ensures
        ntt::reversed(m, 0) == 0,
    decreases m,
{
    if m > 0 {
        lemma_reversed_zero((m - 1) as nat);
        assert(0 * pow2((m - 1) as nat) == 0);
    }
}

/// The least multiple of `s` that is not below `n`.
pub open spec fn next_multiple(n: int, s: int) -> int {
    if n % s == 0 {
        n
    } else {
        n + (s - n % s)
    }
}

proof fn lemma_next_multiple(n: int, s: int)
    requires
        s > 0,
        n >= 0,
    ensures
        next_multiple(n, s) % s == 0,
        next_multiple(n, s) >= n,
{
    lemma_fundamental_div_mod(n, s);
    lemma_mod_bound(n, s);
    let q: int = n / s;
    if n % s != 0 {
        assert(next_multiple(n, s) == s * (q + 1)) by (nonlinear_arith)
            requires
                next_multiple(n, s) == n + (s - n % s),
                n == s * q + n % s,
        ;
        lemma_mod_multiples_basic(q + 1, s);
        lemma_mul_is_commutative(s, q + 1);
    }
}

/// A number that is not above a multiple has its next multiple not above it.
proof fn lemma_multiple_below(n: int, s: int, u: int)
    requires
        s > 0,
        0 <= n <= u * s,
    ensures
        next_multiple(n, s) <= u * s,
{
    lemma_fundamental_div_mod(n, s);
    lemma_mod_bound(n, s);
    let q: int = n / s;
    let r: int = n % s;
    if r != 0 {
        assert(q + 1 <= u) by (nonlinear_arith)
            requires
                s * q + r <= u * s,
                r > 0,
                s > 0,
        ;
        assert(s * q + s <= u * s) by (nonlinear_arith)
            requires
                q + 1 <= u,
                s > 0,
        ;
    }
}

/// One row of a set of columns, in the extension.
fn lifted_row_at(columns: &Vec<Vec<F>>, row: usize) -> (r: Vec<EF>)
    requires
        forall|c: int| 0 <= c < columns@.len() ==> row < (#[trigger] columns@[c])@.len(),
    ensures
        r@ == totals::lifted_row(columns@, row as int),
{
    let mut out: Vec<EF> = Vec::new();
    let mut c: usize = 0;
    while c < columns.len()
        invariant
            c <= columns@.len(),
            forall|c: int| 0 <= c < columns@.len() ==> row < (#[trigger] columns@[c])@.len(),
            out@.len() == c,
            forall|i: int| 0 <= i < c ==> #[trigger] out@[i] == EF::from_base_spec(columns@[i]@[row as int]),
        decreases columns@.len() - c,
    {
        out.push(EF::from_base(columns[c][row]));
        c = c + 1;
    }
    assert(out@ =~= totals::lifted_row(columns@, row as int));
    out
}

/// The columns in the extension, with the low digits of the row number in reverse.
fn reverse_columns(columns: &Vec<Vec<F>>, n_vars: usize, pivot: usize, chunk: usize) -> (r: Vec<Vec<EF>>)
    requires
        pivot <= n_vars,
        pow2(n_vars as nat) <= usize::MAX,
        chunk == pow2(pivot as nat),
        forall|c: int| 0 <= c < columns@.len() ==> (#[trigger] columns@[c])@.len() == pow2(n_vars as nat),
    ensures
        r@.len() == columns@.len(),
        forall|c: int| 0 <= c < r@.len() ==> (#[trigger] r@[c])@.len() == pow2(n_vars as nat),
        forall|c: int, i: int|
            0 <= c < r@.len() && 0 <= i < pow2(n_vars as nat) ==> #[trigger] r@[c]@[i] == EF::from_base_spec(
                columns@[c]@[order::natural(pivot as nat, i)],
            ),
{
    proof {
        lemma_pow2_pos(pivot as nat);
        lemma_pow2_adds((n_vars - pivot) as nat, pivot as nat);
    }
    let mut out: Vec<Vec<EF>> = Vec::new();
    let mut c: usize = 0;
    while c < columns.len()
        invariant
            c <= columns@.len(),
            pivot <= n_vars,
            pow2(n_vars as nat) <= usize::MAX,
            pow2(n_vars as nat) == pow2((n_vars - pivot) as nat) * pow2(pivot as nat),
            chunk == pow2(pivot as nat),
            chunk > 0,
            forall|c: int| 0 <= c < columns@.len() ==> (#[trigger] columns@[c])@.len() == pow2(n_vars as nat),
            out@.len() == c,
            forall|m: int| 0 <= m < c ==> (#[trigger] out@[m])@.len() == pow2(n_vars as nat),
            forall|m: int, i: int|
                0 <= m < c && 0 <= i < pow2(n_vars as nat) ==> #[trigger] out@[m]@[i] == EF::from_base_spec(
                    columns@[m]@[order::natural(pivot as nat, i)],
                ),
        decreases columns@.len() - c,
    {
        let column = &columns[c];
        let mut stored: Vec<EF> = Vec::new();
        let mut i: usize = 0;
        while i < column.len()
            invariant
                i <= column@.len(),
                pivot <= n_vars,
                pow2(n_vars as nat) <= usize::MAX,
                pow2(n_vars as nat) == pow2((n_vars - pivot) as nat) * pow2(pivot as nat),
                chunk == pow2(pivot as nat),
                chunk > 0,
                column@.len() == pow2(n_vars as nat),
                stored@.len() == i,
                forall|m: int|
                    0 <= m < i ==> #[trigger] stored@[m] == EF::from_base_spec(
                        column@[order::natural(pivot as nat, m)],
                    ),
            decreases column@.len() - i,
        {
            proof {
                order::lemma_natural_bound(pivot as nat, pow2((n_vars - pivot) as nat), i as int);
                order::lemma_block_whole(chunk as int, i as int);
                arith::lemma_pow2_monotone(pivot as nat, n_vars as nat);
            }
            let place: usize = ntt::reverse_bits(pivot, i % chunk);
            let start: usize = (i / chunk) * chunk;
            stored.push(EF::from_base(column[start + place]));
            i = i + 1;
        }
        out.push(stored);
        c = c + 1;
    }
    out
}

} // verus!
