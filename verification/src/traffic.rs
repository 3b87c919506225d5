//! How many bytes the stages of a proof move.
use crate::arith;
use vstd::arithmetic::div_mod::*;
use vstd::arithmetic::power2::*;
use vstd::prelude::*;

verus! {

/// The sizes that the estimates depend on.
#[derive(Clone, Copy, Debug, PartialEq, Eq, Structural)]
pub struct TrafficInputs {
    pub committed_columns: usize,
    pub padded_rows: usize,
    /// The folding factor of the first round.
    pub folding_factor: usize,
    pub starting_log_inv_rate: usize,
    /// The bytes of a base field element.
    pub f_bytes: u32,
    /// The bytes of a pack of base field elements.
    pub pf_pack_bytes: u32,
    /// The bytes of a pack of extension field elements.
    pub ef_pack_bytes: u32,
    /// The logarithm of the number of elements of a pack.
    pub pack_log: usize,
    /// The number of elements of a pack.
    pub pack_width: usize,
}

/// The bytes that a stage moves.
#[derive(Clone, Copy, Debug, PartialEq, Eq)]
pub struct MemoryTrafficEstimate {
    pub stage: &'static str,
    pub bytes: u128,
    pub note: &'static str,
}

/// `len + len / 2 + len / 4 + ..`, with `n` terms.
pub open spec fn halved_sum(len: nat, n: nat) -> nat
    decreases n,
{
    if n == 0 {
        0
    } else {
        len + halved_sum(len / 2, (n - 1) as nat)
    }
}

proof fn lemma_halved_sum(len: nat, n: nat)
    ensures
        halved_sum(len, n) <= 2 * len,
    decreases n,
{
    if n > 0 {
        lemma_halved_sum(len / 2, (n - 1) as nat);
    }
}

/// The bytes of a sumcheck over packed vectors: both are read, read again to be folded, and the
/// folded ones are moved three times in each further round.
pub open spec fn sumcheck_bytes(packed_len: nat, first_fold: nat, pf: nat, ef: nat) -> nat {
    if first_fold == 0 {
        packed_len * (pf + ef)
    } else {
        let rounds: nat = if first_fold >= 2 {
            (first_fold - 1) as nat
        } else {
            1
        };
        2 * (packed_len * (pf + ef)) + packed_len * ef + 3 * (halved_sum(packed_len / 2, rounds) * ef)
    }
}

/// The bytes of the first sumcheck.
pub fn initial_product_sumcheck_bytes(
    packed_len: usize,
    first_fold: usize,
    pf_pack_bytes: u128,
    ef_pack_bytes: u128,
) -> (r: u128)
    requires
        sumcheck_bytes(packed_len as nat, first_fold as nat, pf_pack_bytes as nat, ef_pack_bytes as nat)
            <= u128::MAX,
        pf_pack_bytes + ef_pack_bytes <= u128::MAX,
    ensures
        r == sumcheck_bytes(packed_len as nat, first_fold as nat, pf_pack_bytes as nat, ef_pack_bytes as nat),
{
    let ghost ef: nat = ef_pack_bytes as nat;
    let ghost top: nat = sumcheck_bytes(
        packed_len as nat,
        first_fold as nat,
        pf_pack_bytes as nat,
        ef_pack_bytes as nat,
    );
    proof {
        let (p, x, y) = (packed_len as nat, pf_pack_bytes as nat, ef_pack_bytes as nat);
        assert(p * (x + y) >= 0 && p * y >= 0) by (nonlinear_arith);
        let h = halved_sum(p / 2, if first_fold >= 2 {
            (first_fold - 1) as nat
        } else {
            1
        });
        assert(h * y >= 0) by (nonlinear_arith);
    }
    let both: u128 = packed_len as u128 * (pf_pack_bytes + ef_pack_bytes);
    if first_fold == 0 {
        return both;
    }
    let mut bytes: u128 = both + both;
    bytes = bytes + packed_len as u128 * ef_pack_bytes;
    let rounds: usize = if first_fold >= 2 {
        first_fold - 1
    } else {
        1
    };
    let mut len: usize = packed_len / 2;
    let mut i: usize = 0;
    while i < rounds
        invariant
            i <= rounds,
            ef == ef_pack_bytes,
            top <= u128::MAX,
            top == bytes + 3 * (halved_sum(len as nat, (rounds - i) as nat) * ef),
        decreases rounds - i,
    {
        proof {
            let rest: nat = halved_sum(len as nat / 2, (rounds - i - 1) as nat);
            assert(halved_sum(len as nat, (rounds - i) as nat) == len as nat + rest);
            let l: nat = len as nat;
            assert((l + rest) * ef == l * ef + rest * ef && rest * ef >= 0 && l * ef >= 0) by (nonlinear_arith);
            assert(3 * l * ef == 3 * (l * ef)) by (nonlinear_arith);
        }
        bytes = bytes + 3 * len as u128 * ef_pack_bytes;
        len = len / 2;
        i = i + 1;
    }
    proof {
        assert(halved_sum(len as nat, 0) == 0);
        assert(0nat * ef == 0);
    }
    bytes
}

/// The bytes of the combined statement: its weights are cleared, and each column writes and reads
/// its part.
pub open spec fn combine_bytes(columns: nat, rows: nat, global_len: nat, pack_log: nat, ef: nat) -> nat {
    (global_len / pow2(pack_log)) * ef + 2 * (columns * (rows / pow2(pack_log)) * ef)
}

/// The bytes of the combined statement.
pub fn combine_statement_bytes(
    committed_columns: usize,
    padded_rows: usize,
    global_len: usize,
    pack_log: usize,
    ef_pack_bytes: u128,
) -> (r: u128)
    requires
        pow2(pack_log as nat) <= usize::MAX,
        combine_bytes(
            committed_columns as nat,
            padded_rows as nat,
            global_len as nat,
            pack_log as nat,
            ef_pack_bytes as nat,
        ) <= u128::MAX,
    ensures
        r == combine_bytes(
            committed_columns as nat,
            padded_rows as nat,
            global_len as nat,
            pack_log as nat,
            ef_pack_bytes as nat,
        ),
{
    proof {
        lemma_pow2_pos(pack_log as nat);
        let width: nat = pow2(pack_log as nat);
        let (c, r, g, e) = (
            committed_columns as nat,
            padded_rows as nat / width,
            global_len as nat / width,
            ef_pack_bytes as nat,
        );
        assert(g * e >= 0 && c * r * e >= 0) by (nonlinear_arith);
        lemma_div_is_ordered_by_denominator(padded_rows as int, 1, width as int);
        assert(c * r <= usize::MAX * usize::MAX) by (nonlinear_arith)
            requires
                c <= usize::MAX,
                r <= usize::MAX,
        ;
        assert(usize::MAX * usize::MAX <= u128::MAX) by (nonlinear_arith)
            requires
                usize::MAX <= u64::MAX,
                0 <= usize::MAX,
        ;
    }
    let width: usize = arith::power_of_two(pack_log);
    let weights: u128 = (global_len / width) as u128 * ef_pack_bytes;
    let dense: u128 = committed_columns as u128 * ((padded_rows / width) as u128) * ef_pack_bytes;
    weights + 2 * dense
}

impl TrafficInputs {
    /// The number of committed elements.
    pub open spec fn data_len(self) -> nat {
        self.committed_columns as nat * self.padded_rows as nat
    }

    /// The number of variables of the polynomial over all columns.
    pub open spec fn n_vars(self) -> nat {
        arith::log2_ceil_spec(self.data_len())
    }

    /// The number of values of the polynomial over all columns.
    pub open spec fn global_len(self) -> nat {
        arith::next_pow2(self.data_len())
    }

    /// The number of variables that are folded first.
    pub open spec fn first_fold(self) -> nat {
        if self.folding_factor < self.n_vars() {
            self.folding_factor as nat
        } else {
            self.n_vars()
        }
    }

    /// The height of the first matrix that is committed to.
    pub open spec fn commit_height(self) -> nat {
        pow2(self.n_vars() + self.starting_log_inv_rate as nat) / pow2(self.first_fold())
    }

    /// The columns of the first matrix that hold data.
    pub open spec fn filled_columns(self) -> nat {
        let height: nat = self.global_len() / pow2(self.first_fold());
        (self.data_len() + height - 1) as nat / height
    }

    /// The columns of the first matrix that are transformed: whole packs, at most all.
    pub open spec fn transformed_columns(self) -> nat {
        let w: nat = self.pack_width as nat;
        let whole: nat = (self.filled_columns() + w - 1) as nat / w * w;
        if whole < pow2(self.first_fold()) {
            whole
        } else {
            pow2(self.first_fold())
        }
    }

    /// The bytes of the first matrix.
    pub open spec fn matrix_bytes(self) -> nat {
        self.commit_height() * self.transformed_columns() * self.f_bytes as nat
    }

    /// What the limits of the machine ask of the sizes.
    pub open spec fn fits(self) -> bool {
        &&& self.data_len() > 0
        &&& self.pack_width > 0
        &&& pow2(self.n_vars() + self.starting_log_inv_rate as nat) <= usize::MAX
        &&& self.global_len() + self.pack_width <= usize::MAX
        &&& pow2(self.pack_log as nat) <= usize::MAX
    }

    /// The bytes of the five stages.
    pub open spec fn stage_bytes(self, i: int) -> nat {
        let f: nat = self.f_bytes as nat;
        let ef: nat = self.ef_pack_bytes as nat;
        if i == 0 {
            (self.data_len() + self.global_len()) * f
        } else if i == 1 {
            self.global_len() * f + self.matrix_bytes()
        } else if i == 2 {
            self.matrix_bytes() + self.commit_height() * (8 * f) * 3
        } else if i == 3 {
            combine_bytes(
                self.committed_columns as nat,
                self.padded_rows as nat,
                self.global_len(),
                self.pack_log as nat,
                ef,
            )
        } else {
            sumcheck_bytes(
                self.global_len() / pow2(self.pack_log as nat),
                self.first_fold(),
                self.pf_pack_bytes as nat,
                ef,
            )
        }
    }
}

/// The names of the five stages.
pub open spec fn stage_name(i: int) -> Seq<char> {
    if i == 0 {
        "prove/global_polynomial"@
    } else if i == 1 {
        "prove/whir/commit_fft"@
    } else if i == 2 {
        "prove/whir/commit_merkle"@
    } else if i == 3 {
        "prove/whir/combine_statement"@
    } else {
        "prove/whir/initial_product_sumcheck"@
    }
}

/// What the estimates of the five stages count.
pub open spec fn stage_note(i: int) -> Seq<char> {
    if i == 0 {
        "read committed columns + write padded global MLE"@
    } else if i == 1 {
        "lower bound: read global MLE + write first folded matrix"@
    } else if i == 2 {
        "lower bound: hash first matrix layer and digest tree"@
    } else if i == 3 {
        "zero combined weights + copy weighted row-eq chunks"@
    } else {
        "read evals/weights and fold packed vectors in place"@
    }
}

/// The matrix has no more entries than the domain has points.
proof fn lemma_matrix(t: TrafficInputs)
    requires
        t.fits(),
    ensures
        pow2(t.first_fold()) <= t.global_len(),
        t.global_len() / pow2(t.first_fold()) >= 1,
        t.data_len() <= t.global_len(),
        t.global_len() <= pow2(t.n_vars() + t.starting_log_inv_rate as nat),
        t.filled_columns() <= t.global_len(),
        t.filled_columns() >= 1,
        t.commit_height() <= usize::MAX,
        t.commit_height() * t.transformed_columns() <= usize::MAX,
{
    let ff: nat = t.first_fold();
    let top: nat = t.n_vars() + t.starting_log_inv_rate as nat;
    arith::lemma_pow2_monotone(ff, t.n_vars());
    arith::lemma_pow2_monotone(t.n_vars(), top);
    arith::lemma_next_pow2(t.data_len());
    lemma_pow2_pos(ff);
    lemma_pow2_subtracts(ff, t.n_vars());
    lemma_pow2_subtracts(ff, top);
    let height: nat = t.global_len() / pow2(ff);
    lemma_pow2_pos((t.n_vars() - ff) as nat);
    lemma_pow2_adds(ff, (t.n_vars() - ff) as nat);
    lemma_pow2_adds(ff, (top - ff) as nat);
    assert(t.global_len() == pow2(ff) * height);
    assert(t.filled_columns() * height <= t.data_len() + height - 1 && t.filled_columns() >= 1) by {
        lemma_fundamental_div_mod(t.data_len() + height - 1, height as int);
        lemma_mod_bound(t.data_len() + height - 1, height as int);
        vstd::arithmetic::mul::lemma_mul_is_commutative(height as int, t.filled_columns() as int);
        if t.filled_columns() == 0 {
            assert(height * 0nat == 0) by (nonlinear_arith);
        }
    }
    let c: nat = t.filled_columns();
    let n: nat = pow2(ff);
    assert(c <= n) by (nonlinear_arith)
        requires
            c * height <= n * height + height - 1,
            height >= 1,
    ;
    let w: nat = t.transformed_columns();
    let h: nat = t.commit_height();
    assert(h * w <= h * n) by (nonlinear_arith)
        requires
            w <= n,
    ;
    assert(h * n == n * h) by (nonlinear_arith);
    assert(h <= n * h) by (nonlinear_arith)
        requires
            n >= 1,
    ;
}

/// The bytes that the stages of a proof move, as far as the sizes tell.
pub fn memory_traffic_estimates(t: TrafficInputs) -> (r: Vec<MemoryTrafficEstimate>)
    requires
        t.fits(),
    ensures
        r@.len() == 5,
        forall|i: int|
            0 <= i < 5 ==> {
                &&& (#[trigger] r@[i]).stage@ == stage_name(i)
                &&& r@[i].bytes == t.stage_bytes(i)
                &&& r@[i].note@ == stage_note(i)
            },
{
    proof {
        lemma_matrix(t);
    }
    let data_len: usize = t.committed_columns * t.padded_rows;
    let n_vars: usize = arith::log2_ceil(data_len);
    let global_len: usize = arith::power_of_two(n_vars);
    let first_fold: usize = if t.folding_factor < n_vars {
        t.folding_factor
    } else {
        n_vars
    };
    let n_blocks: usize = arith::power_of_two(first_fold);
    proof {
        arith::lemma_pow2_fits(n_vars as nat + t.starting_log_inv_rate as nat);
        lemma_pow2_pos(first_fold as nat);
    }
    let domain_size: usize = arith::power_of_two(n_vars + t.starting_log_inv_rate);
    let commit_height: usize = domain_size / n_blocks;
    let height: usize = global_len / n_blocks;
    let filled: usize = if data_len % height == 0 {
        data_len / height
    } else {
        data_len / height + 1
    };
    proof {
        lemma_div_ceil(data_len as nat, height as nat);
    }
    let packs: usize = if filled % t.pack_width == 0 {
        filled / t.pack_width
    } else {
        filled / t.pack_width + 1
    };
    proof {
        lemma_div_ceil(filled as nat, t.pack_width as nat);
        lemma_fundamental_div_mod(filled + t.pack_width - 1, t.pack_width as int);
        vstd::arithmetic::mul::lemma_mul_is_commutative(t.pack_width as int, packs as int);
        lemma_mod_bound(filled + t.pack_width - 1, t.pack_width as int);
    }
    let whole: usize = packs * t.pack_width;
    let transformed: usize = if whole < n_blocks {
        whole
    } else {
        n_blocks
    };
    let f: u128 = t.f_bytes as u128;
    let ef: u128 = t.ef_pack_bytes as u128;
    let pf: u128 = t.pf_pack_bytes as u128;
    let width: usize = arith::power_of_two(t.pack_log);
    proof {
        lemma_pow2_pos(t.pack_log as nat);
        lemma_bounds(t);
    }
    let entries: usize = commit_height * transformed;
    let matrix: u128 = entries as u128 * f;
    let mut out: Vec<MemoryTrafficEstimate> = Vec::new();
    out.push(
        MemoryTrafficEstimate {
            stage: "prove/global_polynomial",
            bytes: (data_len as u128 + global_len as u128) * f,
            note: "read committed columns + write padded global MLE",
        },
    );
    out.push(
        MemoryTrafficEstimate {
            stage: "prove/whir/commit_fft",
            bytes: global_len as u128 * f + matrix,
            note: "lower bound: read global MLE + write first folded matrix",
        },
    );
    out.push(
        MemoryTrafficEstimate {
            stage: "prove/whir/commit_merkle",
            bytes: matrix + commit_height as u128 * (8 * f) * 3,
            note: "lower bound: hash first matrix layer and digest tree",
        },
    );
    out.push(
        MemoryTrafficEstimate {
            stage: "prove/whir/combine_statement",
            bytes: combine_statement_bytes(t.committed_columns, t.padded_rows, global_len, t.pack_log, ef),
            note: "zero combined weights + copy weighted row-eq chunks",
        },
    );
    out.push(
        MemoryTrafficEstimate {
            stage: "prove/whir/initial_product_sumcheck",
            bytes: initial_product_sumcheck_bytes(global_len / width, first_fold, pf, ef),
            note: "read evals/weights and fold packed vectors in place",
        },
    );
    out
}

/// Rounding a quotient up.
proof fn lemma_div_ceil(n: nat, d: nat)
    requires
        d >= 1,
    ensures
        (n + d - 1) as nat / d == if n % d == 0 {
            n / d
        } else {
            n / d + 1
        },
{
    lemma_fundamental_div_mod(n as int, d as int);
    lemma_mod_bound(n as int, d as int);
    let q: int = (n / d) as int;
    let r: int = (n % d) as int;
    assert(d * q == q * d) by (nonlinear_arith);
    if r == 0 {
        lemma_fundamental_div_mod_converse(n + d - 1, d as int, q, d - 1);
    } else {
        assert((q + 1) * d == q * d + d) by (nonlinear_arith);
        lemma_fundamental_div_mod_converse(n + d - 1, d as int, q + 1, r - 1);
    }
}

/// None of the estimates is too large.
proof fn lemma_bounds(t: TrafficInputs)
    requires
        t.fits(),
    ensures
        (t.data_len() + t.global_len()) * (t.f_bytes as nat) <= u128::MAX,
        t.global_len() * (t.f_bytes as nat) + t.matrix_bytes() <= u128::MAX,
        t.matrix_bytes() + t.commit_height() * (8 * t.f_bytes as nat) * 3 <= u128::MAX,
        t.stage_bytes(3) <= u128::MAX,
        t.stage_bytes(4) <= u128::MAX,
{
    lemma_matrix(t);
    let f: nat = t.f_bytes as nat;
    let pf: nat = t.pf_pack_bytes as nat;
    let ef: nat = t.ef_pack_bytes as nat;
    let max: nat = u64::MAX as nat;
    let (d, g, h) = (t.data_len(), t.global_len(), t.commit_height());
    let e: nat = h * t.transformed_columns();
    let small: nat = u32::MAX as nat;
    assert(usize::MAX <= max);
    assert((d + g) * f <= 2 * max * small && g * f + e * f <= 2 * max * small && e * f + h * (8 * f) * 3 <= 25 * max
        * small) by (nonlinear_arith)
        requires
            d <= max,
            g <= max,
            e <= max,
            h <= max,
            f <= small,
    ;
    let width: nat = pow2(t.pack_log as nat);
    lemma_pow2_pos(t.pack_log as nat);
    lemma_div_is_ordered_by_denominator(g as int, 1, width as int);
    lemma_div_is_ordered_by_denominator(t.padded_rows as int, 1, width as int);
    let p: nat = g / width;
    let c: nat = t.committed_columns as nat;
    let r: nat = t.padded_rows as nat / width;
    let rows: nat = t.padded_rows as nat;
    assert(c * r <= c * rows) by (nonlinear_arith)
        requires
            r <= rows,
    ;
    let cr: nat = c * r;
    assert(p * ef + 2 * (cr * ef) <= 3 * max * small) by (nonlinear_arith)
        requires
            p <= max,
            cr <= max,
            ef <= small,
    ;
    let rounds: nat = if t.first_fold() >= 2 {
        (t.first_fold() - 1) as nat
    } else {
        1
    };
    lemma_halved_sum(p / 2, rounds);
    let s: nat = halved_sum(p / 2, rounds);
    assert(2 * (p * (pf + ef)) + p * ef + 3 * (s * ef) <= 8 * max * small && p * (pf + ef) <= 2 * max * small && p * (pf
        + ef) >= 0) by (nonlinear_arith)
        requires
            p <= max,
            s <= max,
            pf <= small,
            ef <= small,
    ;
}

/// One round more adds what is left of the length after as many halvings as there were rounds.
pub proof fn law_halved_sum_steps(len: nat, n: nat)
    ensures
        halved_sum(len, 0) == 0,
        halved_sum(len, n + 1) == halved_sum(len, n) + len / pow2(n),
    decreases n,
{
    if n == 0 {
        lemma2_to64();
        assert(halved_sum(len / 2, 0) == 0);
    } else {
        let m: nat = (n - 1) as nat;
        law_halved_sum_steps(len / 2, m);
        lemma_pow2_unfold(n);
        lemma_pow2_pos(m);
        lemma_div_denominator(len as int, 2, pow2(m) as int);
    }
}

/// A length that can be halved in every round is moved, all in all, as its geometric sum.
pub proof fn law_halved_sum_is_geometric(unit: nat, n: nat)
    ensures
        halved_sum(unit * pow2(n), n) + 2 * unit == 2 * (unit * pow2(n)),
    decreases n,
{
    if n == 0 {
        lemma2_to64();
        assert(unit * pow2(0) == unit) by (nonlinear_arith)
            requires
                pow2(0) == 1,
        ;
    } else {
        let m: nat = (n - 1) as nat;
        law_halved_sum_is_geometric(unit, m);
        lemma_pow2_unfold(n);
        assert(unit * pow2(n) == 2 * (unit * pow2(m))) by (nonlinear_arith)
            requires
                pow2(n) == 2 * pow2(m),
        ;
    }
}

/// The bytes of the first sumcheck: without a fold the vectors are read once; with one or two variables
/// folded they are read twice, and what is folded is written, and moved three times at half the length;
/// every variable more moves the folded vectors three times at the length that is left.
pub proof fn law_sumcheck_bytes_by_folds(packed_len: nat, folds: nat, pf: nat, ef: nat)
    requires
        folds >= 2,
    ensures
        sumcheck_bytes(packed_len, 0, pf, ef) == packed_len * pf + packed_len * ef,
        sumcheck_bytes(packed_len, 1, pf, ef) == 2 * (packed_len * pf) + 3 * (packed_len * ef) + 3 * (packed_len / 2
            * ef),
        sumcheck_bytes(packed_len, 2, pf, ef) == sumcheck_bytes(packed_len, 1, pf, ef),
        sumcheck_bytes(packed_len, folds + 1, pf, ef) == sumcheck_bytes(packed_len, folds, pf, ef) + 3 * (packed_len
            / pow2(folds) * ef),
{
    assert(packed_len * (pf + ef) == packed_len * pf + packed_len * ef) by (nonlinear_arith);
    let half: nat = packed_len / 2;
    assert(halved_sum(half, 1) == half) by {
        assert(halved_sum(half / 2, 0) == 0);
    }
    let m: nat = (folds - 1) as nat;
    law_halved_sum_steps(half, m);
    lemma_pow2_unfold(folds);
    lemma_pow2_pos(m);
    lemma_div_denominator(packed_len as int, 2, pow2(m) as int);
    let left: nat = packed_len / pow2(folds);
    assert(halved_sum(half, folds) == halved_sum(half, m) + left);
    assert((halved_sum(half, m) + left) * ef == halved_sum(half, m) * ef + left * ef) by (nonlinear_arith);
}

/// The bytes of combining statements: the weights are zeroed once, and every column copies its rows,
/// reading and writing them.
pub proof fn law_combine_bytes_by_column(columns: nat, rows: nat, global_len: nat, pack_log: nat, ef: nat)
    ensures
        combine_bytes(0, rows, global_len, pack_log, ef) == global_len / pow2(pack_log) * ef,
        combine_bytes(columns + 1, rows, global_len, pack_log, ef) == combine_bytes(
            columns,
            rows,
            global_len,
            pack_log,
            ef,
        ) + 2 * (rows / pow2(pack_log) * ef),
{
    let r: nat = rows / pow2(pack_log);
    assert(0 * r * ef == 0) by (nonlinear_arith);
    assert((columns + 1) * r * ef == columns * r * ef + r * ef) by (nonlinear_arith);
}

/// The sizes of the first commitment: the polynomial has the least power of two of values that holds the
/// columns; its fold takes the folding factor of its variables, or all of them; the domain is that many
/// rows of it and the rate; and the matrix has as many columns as hold data, rounded up to whole packs,
/// but no more than the fold gives.
pub proof fn law_commitment_sizes(t: TrafficInputs, j: nat)
    requires
        t.fits(),
    ensures
        t.data_len() == t.committed_columns * t.padded_rows,
        t.global_len() == pow2(t.n_vars()),
        t.global_len() >= t.data_len(),
        pow2(j) >= t.data_len() ==> pow2(j) >= t.global_len(),
        t.first_fold() <= t.folding_factor && t.first_fold() <= t.n_vars(),
        t.first_fold() == t.folding_factor || t.first_fold() == t.n_vars(),
        t.commit_height() * pow2(t.first_fold()) == t.global_len() * pow2(t.starting_log_inv_rate as nat),
        t.filled_columns() * (t.global_len() / pow2(t.first_fold())) >= t.data_len(),
        (t.filled_columns() - 1) * (t.global_len() / pow2(t.first_fold())) < t.data_len(),
        t.transformed_columns() <= pow2(t.first_fold()),
        t.transformed_columns() >= t.filled_columns() || t.transformed_columns() == pow2(t.first_fold()),
        t.transformed_columns() < pow2(t.first_fold()) ==> t.transformed_columns() % (t.pack_width as nat) == 0
            && t.transformed_columns() < t.filled_columns() + t.pack_width,
{
    let ff: nat = t.first_fold();
    let top: nat = t.n_vars() + t.starting_log_inv_rate as nat;
    lemma_matrix(t);
    arith::lemma_next_pow2(t.data_len());
    if pow2(j) >= t.data_len() {
        arith::lemma_next_pow2_least(t.data_len(), j);
    }
    lemma_pow2_pos(ff);
    lemma_pow2_adds(t.n_vars(), t.starting_log_inv_rate as nat);
    lemma_pow2_subtracts(ff, top);
    lemma_pow2_adds((top - ff) as nat, ff);
    let height: nat = t.global_len() / pow2(ff);
    let d: nat = t.data_len();
    lemma_div_ceil(d, height);
    lemma_fundamental_div_mod(d as int, height as int);
    lemma_mod_bound(d as int, height as int);
    let q: int = (d / height) as int;
    assert(height * q == q * height) by (nonlinear_arith);
    assert((q + 1) * height == q * height + height) by (nonlinear_arith);
    assert((q - 1) * height == q * height - height) by (nonlinear_arith);
    let w: nat = t.pack_width as nat;
    let c: nat = t.filled_columns();
    lemma_div_ceil(c, w);
    lemma_fundamental_div_mod(c as int, w as int);
    lemma_mod_bound(c as int, w as int);
    let p: int = (c / w) as int;
    assert(w * p == p * w) by (nonlinear_arith);
    assert((p + 1) * w == p * w + w) by (nonlinear_arith);
    let packs: nat = (c + w - 1) as nat / w;
    assert(packs * w % w == 0) by {
        lemma_mod_multiples_basic(packs as int, w as int);
    }
}

/// The bytes of the first three stages: the columns are read and the polynomial written; the polynomial
/// is read and the matrix written; and the matrix is read while three digests of eight elements are moved
/// for every row.
pub proof fn law_commit_stage_bytes(t: TrafficInputs)
    ensures
        t.stage_bytes(0) == t.data_len() * t.f_bytes + t.global_len() * t.f_bytes,
        t.stage_bytes(1) == t.global_len() * t.f_bytes + t.commit_height() * t.transformed_columns() * t.f_bytes,
        t.stage_bytes(2) == t.commit_height() * t.transformed_columns() * t.f_bytes + 24 * (t.commit_height()
            * t.f_bytes),
        t.stage_bytes(3) == combine_bytes(
            t.committed_columns as nat,
            t.padded_rows as nat,
            t.global_len(),
            t.pack_log as nat,
            t.ef_pack_bytes as nat,
        ),
        t.stage_bytes(4) == sumcheck_bytes(
            t.global_len() / pow2(t.pack_log as nat),
            t.first_fold(),
            t.pf_pack_bytes as nat,
            t.ef_pack_bytes as nat,
        ),
{
    let f: nat = t.f_bytes as nat;
    let h: nat = t.commit_height();
    assert((t.data_len() + t.global_len()) * f == t.data_len() * f + t.global_len() * f) by (nonlinear_arith);
    assert(h * (8 * f) * 3 == 24 * (h * f)) by (nonlinear_arith);
}

/// The stages that are estimated, in the order in which a proof goes through them, with what each of them
/// moves.
pub proof fn law_stages_are_named(i: int)
    ensures
        Seq::new(5, |j: int| (stage_name(j), stage_note(j))) == seq![
            ("prove/global_polynomial"@, "read committed columns + write padded global MLE"@),
            ("prove/whir/commit_fft"@, "lower bound: read global MLE + write first folded matrix"@),
            ("prove/whir/commit_merkle"@, "lower bound: hash first matrix layer and digest tree"@),
            ("prove/whir/combine_statement"@, "zero combined weights + copy weighted row-eq chunks"@),
            ("prove/whir/initial_product_sumcheck"@, "read evals/weights and fold packed vectors in place"@),
        ],
        0 <= i < 5 ==> stage_name(i).take(6) == "prove/"@,
        1 <= i < 5 ==> stage_name(i).take(11) == "prove/whir/"@,
{
    assert(Seq::new(5, |j: int| (stage_name(j), stage_note(j))) =~= seq![
        ("prove/global_polynomial"@, "read committed columns + write padded global MLE"@),
        ("prove/whir/commit_fft"@, "lower bound: read global MLE + write first folded matrix"@),
        ("prove/whir/commit_merkle"@, "lower bound: hash first matrix layer and digest tree"@),
        ("prove/whir/combine_statement"@, "zero combined weights + copy weighted row-eq chunks"@),
        ("prove/whir/initial_product_sumcheck"@, "read evals/weights and fold packed vectors in place"@),
    ]);
    reveal_strlit("prove/");
    reveal_strlit("prove/whir/");
    reveal_strlit("prove/global_polynomial");
    reveal_strlit("prove/whir/commit_fft");
    reveal_strlit("prove/whir/commit_merkle");
    reveal_strlit("prove/whir/combine_statement");
    reveal_strlit("prove/whir/initial_product_sumcheck");
    if 0 <= i < 5 {
        assert(stage_name(i).take(6) =~= "prove/"@);
    }
    if 1 <= i < 5 {
        assert(stage_name(i).take(11) =~= "prove/whir/"@);
    }
}

} // verus!
