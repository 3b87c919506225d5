//! What the claims weigh: the gaps between the rows that are linked, the terms of the parity of every
//! codeword, and the parts of a batch; and how many rows and cells a shape has.
use super::air_session;
use super::batch;
use super::claims;
use super::coefficients;
use super::links;
use super::parity;
use super::rounds;
use super::run::{SessionRound, SessionRun};
use super::schedule;
use super::schedule::HashKind;
use super::shape;
use super::shape::LeanAirShape;
use super::wiring;
use crate::ext;
use crate::ext::EF;
use crate::field;
use crate::field::{F, TWO_ADICITY};
use crate::poly;
use crate::sums;
use crate::units;
use vstd::arithmetic::div_mod::*;
use vstd::arithmetic::power2::*;
use vstd::prelude::*;

verus! {

/// The claim on the links weighs, with a power of its point for every element of every half of an input,
/// what the output that it is linked to exceeds it by, or the input itself where it is linked to none.
/// The sum runs over the sixteen input columns and the eight output columns.
pub proof fn law_link_claim_weighs_gaps(
    shape: LeanAirShape,
    v: spec_fn(int, int) -> F,
    gap: spec_fn(int, int) -> F,
    point: EF,
)
    requires
        shape.valid(),
        forall|n: int, l: int|
            0 <= n < 2 * (shape.total_rows() - shape.systematic_start()) && 0 <= l < 8 ==> #[trigger] gap(n, l)
                == match links::link_source(shape, shape.systematic_start() + n / 2, n % 2) {
                Some(y) => v(84 + l, y) - v(8 * (n % 2) + l, shape.systematic_start() + n / 2),
                None => v(8 * (n % 2) + l, shape.systematic_start() + n / 2),
            },
    ensures
        sums::sum(
            24,
            |slot: int|
                sums::sum(
                    shape.table_rows(),
                    |row: int|
                        coefficients::link_coeff(shape, point, slot, row).scale_spec(
                            v(
                                if slot < 16 {
                                    slot
                                } else {
                                    slot + 68
                                },
                                row,
                            ),
                        ),
                ),
        ) == sums::sum(
            8,
            |l: int|
                sums::sum(
                    (2 * (shape.total_rows() - shape.systematic_start())) as nat,
                    |n: int| point.pow((8 * n + l) as nat).scale_spec(gap(n, l)),
                ),
        ),
{
    let rows: nat = shape.table_rows();
    let count: nat = (2 * (shape.total_rows() - shape.systematic_start())) as nat;
    let _ = shape::lemma_shape(shape);
    links::lemma_starts(shape);
    wiring::lemma_link_total(shape, v, point);
    let f = |slot: int|
        sums::sum(
            rows,
            |row: int|
                coefficients::link_coeff(shape, point, slot, row).scale_spec(
                    v(
                        if slot < 16 {
                            slot
                        } else {
                            slot + 68
                        },
                        row,
                    ),
                ),
        );
    let g = |slot: int|
        sums::sum(
            shape.table_rows(),
            |row: int|
                coefficients::link_coeff(shape, point, slot, row).scale_spec(v(claims::link_column(slot), row)),
        );
    assert forall|slot: int| 0 <= slot < 24 implies #[trigger] f(slot) == g(slot) by {
        sums::lemma_sum_ext(
            rows,
            |row: int|
                coefficients::link_coeff(shape, point, slot, row).scale_spec(
                    v(
                        if slot < 16 {
                            slot
                        } else {
                            slot + 68
                        },
                        row,
                    ),
                ),
            |row: int|
                coefficients::link_coeff(shape, point, slot, row).scale_spec(v(claims::link_column(slot), row)),
        );
    }
    sums::lemma_sum_ext(24, f, g);
    let gaps = wiring::link_gaps(shape, v);
    let a = |l: int| sums::sum(count, |n: int| point.pow((8 * n + l) as nat).scale_spec(gap(n, l)));
    let b = |l: int| sums::sum(count, |n: int| point.pow((8 * n + l) as nat).scale_spec(gaps(n, l)));
    assert forall|l: int| 0 <= l < 8 implies #[trigger] a(l) == b(l) by {
        let x = |n: int| point.pow((8 * n + l) as nat).scale_spec(gap(n, l));
        let y = |n: int| point.pow((8 * n + l) as nat).scale_spec(gaps(n, l));
        assert forall|n: int| 0 <= n < count implies #[trigger] x(n) == y(n) by {
            assert(gap(n, l) == gaps(n, l));
        }
        sums::lemma_sum_ext(count, x, y);
    }
    sums::lemma_sum_ext(8, a, b);
}

/// The claim on the steps of cell hashes weighs, with a power of its point for every element of every step,
/// what the output of a row exceeds the first half of the next row's input by, where both are of one cell.
pub proof fn law_cell_link_claim_weighs_gaps(
    shape: LeanAirShape,
    v: spec_fn(int, int) -> F,
    gap: spec_fn(int, int) -> F,
    point: EF,
)
    requires
        shape.valid(),
        forall|m: int, l: int|
            0 <= m < shape.n_rows * shape.cells() * (shape.chunks() - 1) && 0 <= l < 8 ==> #[trigger] gap(m, l) == v(
                84 + l,
                (m / (shape.chunks() - 1)) * shape.chunks() + m % (shape.chunks() - 1),
            ) - v(l, (m / (shape.chunks() - 1)) * shape.chunks() + m % (shape.chunks() - 1) + 1),
    ensures
        sums::sum(
            16,
            |slot: int|
                sums::sum(
                    shape.table_rows(),
                    |row: int|
                        coefficients::cell_link_coeff(shape, point, slot, row).scale_spec(
                            v(
                                if slot < 8 {
                                    84 + slot
                                } else {
                                    slot - 8
                                },
                                row,
                            ),
                        ),
                ),
        ) == sums::sum(
            8,
            |l: int|
                sums::sum(
                    (shape.n_rows * shape.cells() * (shape.chunks() - 1)) as nat,
                    |m: int| point.pow((8 * m + l) as nat).scale_spec(gap(m, l)),
                ),
        ),
{
    let rows: nat = shape.table_rows();
    let _ = shape::lemma_shape(shape);
    wiring::lemma_cell_link_total(shape, v, point);
    let count: nat = wiring::n_cell_links(shape);
    let f = |slot: int|
        sums::sum(
            rows,
            |row: int|
                coefficients::cell_link_coeff(shape, point, slot, row).scale_spec(
                    v(
                        if slot < 8 {
                            84 + slot
                        } else {
                            slot - 8
                        },
                        row,
                    ),
                ),
        );
    let g = |slot: int|
        sums::sum(
            shape.table_rows(),
            |row: int|
                coefficients::cell_link_coeff(shape, point, slot, row).scale_spec(
                    v(claims::cell_link_column_of(slot), row),
                ),
        );
    assert forall|slot: int| 0 <= slot < 16 implies #[trigger] f(slot) == g(slot) by {
        sums::lemma_sum_ext(
            rows,
            |row: int|
                coefficients::cell_link_coeff(shape, point, slot, row).scale_spec(
                    v(
                        if slot < 8 {
                            84 + slot
                        } else {
                            slot - 8
                        },
                        row,
                    ),
                ),
            |row: int|
                coefficients::cell_link_coeff(shape, point, slot, row).scale_spec(
                    v(claims::cell_link_column_of(slot), row),
                ),
        );
    }
    sums::lemma_sum_ext(16, f, g);
    assert(count == shape.n_rows * shape.cells() * (shape.chunks() - 1));
    let gaps = wiring::cell_link_gaps(shape, v);
    let a = |l: int| sums::sum(count, |n: int| point.pow((8 * n + l) as nat).scale_spec(gap(n, l)));
    let b = |l: int| sums::sum(count, |n: int| point.pow((8 * n + l) as nat).scale_spec(gaps(n, l)));
    assert forall|l: int| 0 <= l < 8 implies #[trigger] a(l) == b(l) by {
        let x = |n: int| point.pow((8 * n + l) as nat).scale_spec(gap(n, l));
        let y = |n: int| point.pow((8 * n + l) as nat).scale_spec(gaps(n, l));
        assert forall|n: int| 0 <= n < count implies #[trigger] x(n) == y(n) by {
            assert(gap(n, l) == gaps(n, l));
        }
        sums::lemma_sum_ext(count, x, y);
    }
    sums::lemma_sum_ext(8, a, b);
}

/// The weight of term `t` of a codeword: the powers of the point over the node, added up as far as the
/// message is long; with a power of the challenge for the codeword; and less, in place of more, at odd
/// places.
pub proof fn law_term_weight(log_m: nat, alpha: EF, r: EF, row: nat, t: int)
    requires
        log_m < TWO_ADICITY,
        0 <= t < 2 * pow2(log_m),
    ensures
        parity::node_inverse(log_m, t) * F::root(log_m + 1).pow(t as nat) == F::of(1),
        ({
            let s = r.scale_spec(parity::node_inverse(log_m, t));
            let w = coefficients::term_weight(log_m, alpha, r, 0, t);
            &&& t % 2 == 0 ==> w * (s - EF::one_spec()) == s.pow(pow2(log_m)) - EF::one_spec()
            &&& t % 2 == 1 ==> w.negate_spec() * (s - EF::one_spec()) == s.pow(pow2(log_m)) - EF::one_spec()
        }),
        coefficients::term_weight(log_m, alpha, r, row as int + 1, t) == alpha * coefficients::term_weight(
            log_m,
            alpha,
            r,
            row as int,
            t,
        ),
{
    let w = F::root(log_m + 1);
    let n: nat = 2 * pow2(log_m);
    lemma_pow2_unfold(log_m + 1);
    field::lemma_pow_add(w, (n - t) as nat, t as nat);
    units::lemma_root_order(log_m + 1);
    let s = r.scale_spec(parity::node_inverse(log_m, t));
    let one = EF::one_spec();
    ext::lemma_constants_canonical();
    ext::lemma_scale_canonical(r, parity::node_inverse(log_m, t));
    parity::lemma_geometric(s, pow2(log_m));
    let p = parity::parity_weight(log_m, r, t);
    assert(p == parity::geometric(s, pow2(log_m)));
    sums::lemma_sum_canonical(pow2(log_m), |k: int| s.pow(k as nat));
    assert(alpha.pow(0) * p == p) by {
        ext::lemma_mul_one(p);
    }
    lemma_negate_twice(p);
    ext::lemma_mul_comm(p, s - one);
    // One codeword more.
    assert(alpha.pow(row + 1) == alpha.pow(row) * alpha);
    ext::lemma_mul_comm(alpha.pow(row), alpha);
    ext::lemma_mul_assoc(alpha, alpha.pow(row), p);
    ext::lemma_negate_mul_right(alpha, alpha.pow(row) * p);
}

proof fn lemma_negate_twice(a: EF)
    requires
        a.canonical(),
    ensures
        a.negate_spec().negate_spec() == a,
{
    ext::lemma_add_canonical(a, a.negate_spec());
    ext::lemma_negate_add_self(a);
    ext::lemma_negate_add_self(a.negate_spec());
    let b = a.negate_spec();
    let c = b.negate_spec();
    ext::lemma_add_canonical(b, c);
    // c == c + (b + a) == (c + b) + a == a
    ext::lemma_add_comm(a, b);
    ext::lemma_add_comm(b, c);
    ext::lemma_add_assoc(c, b, a);
    ext::lemma_add_zero(c);
    ext::lemma_add_zero(a);
    ext::lemma_add_comm(EF::zero_spec(), a);
}

/// The parts of a batch: without a challenge the hash claim is left of it, and a batch changes with the
/// challenge by the claim on cell hashes and, with the square, by the one on the links.
pub proof fn law_batch_parts(round: SessionRound, last: SessionRun, eta: EF)
    requires
        round.air_sum.canonical(),
        last.air_sum.canonical(),
    ensures
        round.combined_sum(EF::zero_spec()) == round.air_sum,
        last.value(EF::zero_spec()) == last.air_sum,
        round.combined_sum(eta) == round.air_sum + eta * (round.cell_link_sum + eta * round.linear_sum),
        last.value(eta) == last.air_sum + eta * (last.cell_link_sum + eta * last.linear_sum),
{
    lemma_parts(round.air_sum, round.cell_link_sum, round.linear_sum, eta);
    lemma_parts(last.air_sum, last.cell_link_sum, last.linear_sum, eta);
}

proof fn lemma_parts(a: EF, b: EF, c: EF, eta: EF)
    requires
        a.canonical(),
    ensures
        a + EF::zero_spec() * b + EF::zero_spec() * EF::zero_spec() * c == a,
        a + eta * b + eta * eta * c == a + eta * (b + eta * c),
{
    let z = EF::zero_spec();
    ext::lemma_mul_zero(b);
    ext::lemma_mul_zero(c);
    ext::lemma_mul_zero(z);
    ext::lemma_add_zero(a);
    ext::lemma_mul_distrib_right(eta, b, eta * c);
    ext::lemma_mul_assoc(eta, eta, c);
    ext::lemma_add_assoc(a, eta * b, eta * eta * c);
}

/// The polynomial of a round is multiplied by the factor of the equality polynomial of its variable, and
/// one half stands for both ends alike.
pub proof fn law_round_factor(alpha: EF, c: Seq<EF>, x: EF)
    ensures
        poly::poly_at(batch::step_poly(alpha, c), x) == poly::poly_at(c, x) * ((EF::one_spec() - alpha) * (
        EF::one_spec() - x) + alpha * x),
        rounds::half() + rounds::half() == EF::one_spec(),
{
    batch::lemma_step_poly(alpha, c, x);
    rounds::lemma_half();
}

/// A shape splits its codewords, of two elements for every one of the message, into cells, half of which
/// are of the message; a cell is hashed in the fewest steps that take sixteen elements first and eight in
/// every further one; and the rows of the six kinds make up those of the table.
pub proof fn law_shape_counts(shape: LeanAirShape)
    requires
        shape.valid(),
    ensures
        shape.cells() * shape.cell_len_ext == 2 * pow2(shape.log_m as nat),
        shape.cells() == 2 * shape.systematic_cells(),
        shape.chunks() >= 1,
        16 + 8 * (shape.chunks() - 1) >= 5 * shape.cell_len_ext,
        shape.chunks() == 1 || 16 + 8 * (shape.chunks() - 2) < 5 * shape.cell_len_ext,
        schedule::kind_count(shape, HashKind::Cell) == shape.n_rows * shape.cells() * shape.chunks(),
        schedule::kind_count(shape, HashKind::SystematicRow) == shape.n_rows * shape.systematic_cells(),
        schedule::kind_count(shape, HashKind::RowRoot) == shape.n_rows,
        schedule::kind_count(shape, HashKind::ColumnMerkle) + shape.cells() == shape.cells() * shape.padded(),
        schedule::kind_count(shape, HashKind::ColumnRoot) + 1 == shape.cells(),
        schedule::kind_count(shape, HashKind::FinalRoot) == 1,
        schedule::kind_count(shape, HashKind::Cell) + schedule::kind_count(shape, HashKind::SystematicRow)
            + schedule::kind_count(shape, HashKind::RowRoot) + schedule::kind_count(shape, HashKind::ColumnMerkle)
            + schedule::kind_count(shape, HashKind::ColumnRoot) + schedule::kind_count(shape, HashKind::FinalRoot)
            == shape.total_rows(),
{
    let _ = shape::lemma_shape(shape);
    let (c, p) = (shape.cells() as int, shape.padded() as int);
    assert(c * (p - 1) + c == c * p) by (nonlinear_arith);
}

/// A node of a tree takes two neighbours of the layer below: counted through the leaves and then the
/// nodes, the first of them stands at twice the number of the node.
pub proof fn law_tree_nodes_follow_layers(height: nat, layer: nat, i: int)
    requires
        layer < height,
    ensures
        schedule::tree_node(pow2(height), 0, i) == i,
        2 * schedule::tree_node(pow2(height), layer + 1, i) == pow2(height) + schedule::tree_node(
            pow2(height),
            layer,
            2 * i,
        ),
{
    lemma2_to64();
    let n: nat = pow2(height);
    let (a, b) = ((height - layer) as nat, (height - layer - 1) as nat);
    lemma_pow2_subtracts(layer, height);
    lemma_pow2_subtracts(layer + 1, height);
    lemma_pow2_unfold(a);
    assert(n / pow2(0) == n);
}

/// Of the variables of the hash claim the last twelve, or all where they are fewer, are stored in reverse
/// order, and the rows that are used are padded to the least whole number of blocks.
pub proof fn law_padding_is_least(n: int, block: int, other: int)
    requires
        0 <= n,
        block > 0,
    ensures
        air_session::pivot_of(n) <= 12 && air_session::pivot_of(n) <= n,
        air_session::pivot_of(n) == 12 || air_session::pivot_of(n) == n,
        air_session::next_multiple(n, block) >= n,
        air_session::next_multiple(n, block) % block == 0,
        other >= n && other % block == 0 ==> other >= air_session::next_multiple(n, block),
{
    let m: int = air_session::next_multiple(n, block);
    lemma_fundamental_div_mod(n, block);
    lemma_mod_bound(n, block);
    let q: int = n / block;
    if n % block != 0 {
        assert(m == (q + 1) * block) by (nonlinear_arith)
            requires
                m == n + (block - n % block),
                n == block * q + n % block,
        ;
        lemma_mod_multiples_basic(q + 1, block);
        if other >= n && other % block == 0 {
            lemma_fundamental_div_mod(other, block);
            let p: int = other / block;
            assert(p > q) by (nonlinear_arith)
                requires
                    block * p == other,
                    other >= n,
                    n == block * q + n % block,
                    n % block > 0,
                    block > 0,
            ;
            assert(block * p >= (q + 1) * block) by (nonlinear_arith)
                requires
                    p >= q + 1,
                    block > 0,
            ;
        }
    }
}

/// The rows of the kinds stand one behind the other: each kind starts where those before it end.
pub proof fn law_kinds_start_behind_each_other(shape: LeanAirShape)
    requires
        shape.valid(),
    ensures
        shape.systematic_start() == schedule::kind_count(shape, HashKind::Cell),
        shape.row_root_start() - shape.systematic_start() == schedule::kind_count(shape, HashKind::SystematicRow),
        shape.column_merkle_start() - shape.row_root_start() == schedule::kind_count(shape, HashKind::RowRoot),
        shape.column_root_start() - shape.column_merkle_start() == schedule::kind_count(
            shape,
            HashKind::ColumnMerkle,
        ),
        shape.final_row() - shape.column_root_start() == schedule::kind_count(shape, HashKind::ColumnRoot),
        shape.total_rows() - shape.final_row() == schedule::kind_count(shape, HashKind::FinalRoot),
{
    let _ = shape::lemma_shape(shape);
}

/// The mixed claim is the one on the parity of the codewords with the one on the links, weighed by the mix,
/// added to it; the output columns take part in the links alone.
pub proof fn law_mixed_coefficients_are_linear(
    shape: LeanAirShape,
    alpha: EF,
    parity_point: EF,
    link_point: EF,
    link_mix: EF,
    slot: int,
    row: int,
)
    requires
        0 <= slot < 24,
    ensures
        slot < 16 ==> claims::mixed_coeff(shape, alpha, parity_point, link_point, link_mix, slot, row)
            == coefficients::parity_coeff(shape, alpha, parity_point, slot, row) + link_mix * coefficients::link_coeff(
            shape,
            link_point,
            slot,
            row,
        ),
        slot >= 16 ==> claims::mixed_coeff(shape, alpha, parity_point, link_point, link_mix, slot, row) == link_mix
            * coefficients::link_coeff(shape, link_point, slot, row),
{
    let link = coefficients::link_coeff(shape, link_point, slot, row);
    ext::lemma_mul_comm(link, link_mix);
    ext::lemma_add_comm(link * link_mix, coefficients::parity_coeff(shape, alpha, parity_point, slot, row));
}

/// The sum over columns takes every value once with its own coefficient: where one coefficient is one and
/// all others are zero, what is left is the value of its row in the column that its slot names.
pub proof fn law_linear_sum_picks_value(
    columns: Seq<Vec<F>>,
    indexes: Seq<usize>,
    coeffs: Seq<Vec<EF>>,
    s: int,
    row: int,
)
    requires
        0 <= s < coeffs.len(),
        0 <= row < coeffs[s]@.len(),
        coeffs[s]@[row] == EF::one_spec(),
        forall|t: int, i: int|
            0 <= t < coeffs.len() && 0 <= i < coeffs[t]@.len() && (t != s || i != row) ==> #[trigger] coeffs[t]@[i]
                == EF::zero_spec(),
        columns[indexes[s] as int]@[row].canonical(),
    ensures
        claims::dense_sum_spec(columns, indexes, coeffs) == EF::from_base_spec(columns[indexes[s] as int]@[row]),
{
    let slots = |t: int|
        sums::sum(
            coeffs[t]@.len(),
            |i: int| coeffs[t]@[i].scale_spec(columns[indexes[t] as int]@[i]),
        );
    let value = columns[indexes[s] as int]@[row];
    let picked = EF::from_base_spec(value);
    assert(EF::one_spec().scale_spec(value) == picked) by {
        field::lemma_mul_one(value);
        field::lemma_mul_comm(F::one_spec(), value);
        field::lemma_mul_zero(value);
    }
    ext::lemma_from_base_canonical(value);
    assert forall|t: int| 0 <= t < coeffs.len() && t != s implies #[trigger] slots(t) == EF::zero_spec() by {
        let f = |i: int| coeffs[t]@[i].scale_spec(columns[indexes[t] as int]@[i]);
        assert forall|i: int| 0 <= i < coeffs[t]@.len() implies #[trigger] f(i) == EF::zero_spec() by {
            assert(coeffs[t]@[i] == EF::zero_spec());
            ext::lemma_scale_zero(EF::zero_spec());
        }
        sums::lemma_sum_zero(coeffs[t]@.len(), f);
    }
    assert(slots(s) == picked) by {
        let f = |i: int| coeffs[s]@[i].scale_spec(columns[indexes[s] as int]@[i]);
        assert forall|i: int| 0 <= i < coeffs[s]@.len() && i != row implies #[trigger] f(i) == EF::zero_spec() by {
            assert(coeffs[s]@[i] == EF::zero_spec());
            ext::lemma_scale_zero(EF::zero_spec());
        }
        assert(f(row) == picked);
        sums::lemma_sum_single(coeffs[s]@.len(), row, f);
    }
    sums::lemma_sum_single(coeffs.len(), s, slots);
}

} // verus!
