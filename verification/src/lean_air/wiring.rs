//! What the linear claims say of any columns.
use super::claims;
use super::coefficients;
use super::commit;
use super::detection;
use super::links;
use super::schedule;
use super::shape;
use super::shape::LeanAirShape;
use crate::arith;
use crate::ext;
use crate::ext::EF;
use crate::field;
use crate::field::F;
use crate::poly;
use crate::poseidon::PoseidonConstants;
use crate::sums;
use vstd::arithmetic::div_mod::*;
use vstd::prelude::*;

verus! {

/// The link claim on columns by their values.
pub open spec fn link_total(shape: LeanAirShape, v: spec_fn(int, int) -> F, point: EF) -> EF {
    sums::sum(
        24,
        |slot: int|
            sums::sum(
                shape.table_rows(),
                |row: int|
                    coefficients::link_coeff(shape, point, slot, row).scale_spec(v(claims::link_column(slot), row)),
            ),
    )
}

/// The claim on the steps of cell hashes, on columns by their values.
pub open spec fn cell_link_total(shape: LeanAirShape, v: spec_fn(int, int) -> F, point: EF) -> EF {
    sums::sum(
        16,
        |slot: int|
            sums::sum(
                shape.table_rows(),
                |row: int|
                    coefficients::cell_link_coeff(shape, point, slot, row).scale_spec(
                        v(claims::cell_link_column_of(slot), row),
                    ),
            ),
    )
}

/// The parity claim on columns by their values.
pub open spec fn parity_total(shape: LeanAirShape, v: spec_fn(int, int) -> F, alpha: EF, point: EF) -> EF {
    sums::sum(
        16,
        |slot: int|
            sums::sum(
                shape.table_rows(),
                |row: int| coefficients::parity_coeff(shape, alpha, point, slot, row).scale_spec(v(slot, row)),
            ),
    )
}

/// The mixed claim on columns by their values.
pub open spec fn mixed_total(
    shape: LeanAirShape,
    v: spec_fn(int, int) -> F,
    alpha: EF,
    parity_point: EF,
    link_point: EF,
    link_mix: EF,
) -> EF {
    sums::sum(
        24,
        |slot: int|
            sums::sum(
                shape.table_rows(),
                |row: int|
                    claims::mixed_coeff(shape, alpha, parity_point, link_point, link_mix, slot, row).scale_spec(
                        v(claims::link_column(slot), row),
                    ),
            ),
    )
}

/// The claims on columns are canonical.
pub proof fn lemma_totals_canonical(
    shape: LeanAirShape,
    v: spec_fn(int, int) -> F,
    alpha: EF,
    parity_point: EF,
    cell_link_point: EF,
    link_point: EF,
    link_mix: EF,
)
    ensures
        link_total(shape, v, link_point).canonical(),
        cell_link_total(shape, v, cell_link_point).canonical(),
        parity_total(shape, v, alpha, parity_point).canonical(),
        mixed_total(shape, v, alpha, parity_point, link_point, link_mix).canonical(),
{
    let n: nat = shape.table_rows();
    sums::lemma_sum_canonical(
        24,
        |slot: int|
            sums::sum(
                n,
                |row: int|
                    coefficients::link_coeff(shape, link_point, slot, row).scale_spec(
                        v(claims::link_column(slot), row),
                    ),
            ),
    );
    sums::lemma_sum_canonical(
        16,
        |slot: int|
            sums::sum(
                n,
                |row: int|
                    coefficients::cell_link_coeff(shape, cell_link_point, slot, row).scale_spec(
                        v(claims::cell_link_column_of(slot), row),
                    ),
            ),
    );
    sums::lemma_sum_canonical(
        16,
        |slot: int|
            sums::sum(
                n,
                |row: int| coefficients::parity_coeff(shape, alpha, parity_point, slot, row).scale_spec(v(slot, row)),
            ),
    );
    sums::lemma_sum_canonical(
        24,
        |slot: int|
            sums::sum(
                n,
                |row: int|
                    claims::mixed_coeff(shape, alpha, parity_point, link_point, link_mix, slot, row).scale_spec(
                        v(claims::link_column(slot), row),
                    ),
            ),
    );
}

/// The mixed claim is the link claim times the mixing challenge, plus the parity claim.
pub proof fn lemma_mixed_total(
    shape: LeanAirShape,
    v: spec_fn(int, int) -> F,
    alpha: EF,
    parity_point: EF,
    link_point: EF,
    link_mix: EF,
)
    ensures
        mixed_total(shape, v, alpha, parity_point, link_point, link_mix) == link_total(shape, v, link_point) * link_mix
            + parity_total(shape, v, alpha, parity_point),
{
    let z = EF::zero_spec();
    let n: nat = shape.table_rows();
    let mixed = |slot: int|
        sums::sum(
            n,
            |row: int|
                claims::mixed_coeff(shape, alpha, parity_point, link_point, link_mix, slot, row).scale_spec(
                    v(claims::link_column(slot), row),
                ),
        );
    let link = |slot: int|
        sums::sum(
            n,
            |row: int|
                coefficients::link_coeff(shape, link_point, slot, row).scale_spec(v(claims::link_column(slot), row)),
        );
    let par = |slot: int|
        sums::sum(
            n,
            |row: int| coefficients::parity_coeff(shape, alpha, parity_point, slot, row).scale_spec(v(slot, row)),
        );
    let lm = |slot: int| link(slot) * link_mix;
    let pz = |slot: int| if slot < 16 { par(slot) } else { z };
    let both = |slot: int| lm(slot) + pz(slot);
    assert forall|slot: int| 0 <= slot < 24 implies #[trigger] mixed(slot) == both(slot) by {
        let c: int = claims::link_column(slot);
        let f = |row: int| coefficients::link_coeff(shape, link_point, slot, row).scale_spec(v(c, row));
        let g = |row: int| coefficients::parity_coeff(shape, alpha, parity_point, slot, row).scale_spec(v(slot, row));
        let h = |row: int|
            claims::mixed_coeff(shape, alpha, parity_point, link_point, link_mix, slot, row).scale_spec(v(c, row));
        let fm = |row: int| f(row) * link_mix;
        sums::lemma_sum_mul_right(n, f, link_mix);
        sums::lemma_sum_ext(
            n,
            f,
            |row: int|
                coefficients::link_coeff(shape, link_point, slot, row).scale_spec(
                    v(claims::link_column(slot), row),
                ),
        );
        sums::lemma_sum_ext(
            n,
            h,
            |row: int|
                claims::mixed_coeff(shape, alpha, parity_point, link_point, link_mix, slot, row).scale_spec(
                    v(claims::link_column(slot), row),
                ),
        );
        if slot < 16 {
            let fg = |row: int| fm(row) + g(row);
            assert forall|row: int| 0 <= row < n implies #[trigger] h(row) == fg(row) by {
                let x = coefficients::link_coeff(shape, link_point, slot, row);
                let y = coefficients::parity_coeff(shape, alpha, parity_point, slot, row);
                ext::lemma_scale_add(x * link_mix, y, v(c, row));
                ext::lemma_mul_scale_left(x, link_mix, v(c, row));
            }
            sums::lemma_sum_ext(n, h, fg);
            sums::lemma_sum_add(n, fm, g);
            sums::lemma_sum_ext(
                n,
                g,
                |row: int| coefficients::parity_coeff(shape, alpha, parity_point, slot, row).scale_spec(v(slot, row)),
            );
        } else {
            assert forall|row: int| 0 <= row < n implies #[trigger] h(row) == fm(row) by {
                let x = coefficients::link_coeff(shape, link_point, slot, row);
                ext::lemma_mul_scale_left(x, link_mix, v(c, row));
            }
            sums::lemma_sum_ext(n, h, fm);
            ext::lemma_mul_canonical(link(slot), link_mix);
            ext::lemma_add_zero(lm(slot));
        }
    }
    sums::lemma_sum_ext(24, mixed, both);
    sums::lemma_sum_add(24, lm, pz);
    sums::lemma_sum_mul_right(24, link, link_mix);
    sums::lemma_sum_window(0, 16, 24, pz);
    sums::lemma_sum_ext(16, |i: int| pz(0nat + i), par);
    sums::lemma_sum_ext(
        16,
        par,
        |slot: int|
            sums::sum(
                shape.table_rows(),
                |row: int| coefficients::parity_coeff(shape, alpha, parity_point, slot, row).scale_spec(v(slot, row)),
            ),
    );
    sums::lemma_sum_ext(
        24,
        link,
        |slot: int|
            sums::sum(
                shape.table_rows(),
                |row: int|
                    coefficients::link_coeff(shape, link_point, slot, row).scale_spec(
                        v(claims::link_column(slot), row),
                    ),
            ),
    );
    sums::lemma_sum_ext(
        24,
        mixed,
        |slot: int|
            sums::sum(
                shape.table_rows(),
                |row: int|
                    claims::mixed_coeff(shape, alpha, parity_point, link_point, link_mix, slot, row).scale_spec(
                        v(claims::link_column(slot), row),
                    ),
            ),
    );
}

/// How element `l` of link `n` fails to hold: the output that the link comes from less the input that
/// it goes to, or the input where that has to be zero.
pub open spec fn link_gap(shape: LeanAirShape, v: spec_fn(int, int) -> F, n: int, l: int) -> F {
    let x: int = shape.systematic_start() + n / 2;
    let input = v(8 * (n % 2) + l, x);
    match links::link_source(shape, x, n % 2) {
        Some(y) => v(84 + l, y) - input,
        None => input,
    }
}

/// The number of steps between the rows of cells.
pub open spec fn n_cell_links(shape: LeanAirShape) -> nat {
    shape.n_rows as nat * shape.cells() * (shape.chunks() - 1) as nat
}

/// The row that step `m` between rows of a cell comes from.
pub open spec fn cell_link_row(shape: LeanAirShape, m: int) -> int {
    (m / (shape.chunks() - 1)) * shape.chunks() + m % (shape.chunks() - 1)
}

/// How element `l` of the step `m` fails to hold.
pub open spec fn cell_link_gap(shape: LeanAirShape, v: spec_fn(int, int) -> F, m: int, l: int) -> F {
    let row: int = cell_link_row(shape, m);
    v(84 + l, row) - v(l, row + 1)
}

/// How the links fail to hold.
pub open spec fn link_gaps(shape: LeanAirShape, v: spec_fn(int, int) -> F) -> spec_fn(int, int) -> F {
    |n: int, l: int| link_gap(shape, v, n, l)
}

/// How the steps fail to hold.
pub open spec fn cell_link_gaps(shape: LeanAirShape, v: spec_fn(int, int) -> F) -> spec_fn(int, int) -> F {
    |m: int, l: int| cell_link_gap(shape, v, m, l)
}

/// The sum of gaps of eight elements each, every element with a power of the point of its own.
pub open spec fn gap_sum(count: nat, gap: spec_fn(int, int) -> F, point: EF) -> EF {
    sums::sum(8, |l: int| sums::sum(count, |n: int| point.pow((8 * n + l) as nat).scale_spec(gap(n, l))))
}

/// Sources of links stand above the row.
pub proof fn lemma_source_above(shape: LeanAirShape, x: int, side: int)
    requires
        shape.valid(),
        shape.systematic_start() <= x < shape.total_rows(),
        0 <= side < 2,
    ensures
        links::link_source(shape, x, side) matches Some(y) ==> 0 <= y < x,
{
    let row = Seq::new(5 * shape.codeword_len(), |i: int| F::zero_spec());
    let data = Seq::new(shape.n_rows as nat, |i: int| row);
    let k: PoseidonConstants = vstd::pervasive::arbitrary();
    links::law_inputs_follow_from_outputs(k, shape, data, x, side);
}

/// A weight against a difference.
proof fn lemma_scale_difference(w: EF, a: F, b: F)
    ensures
        w.negate_spec().scale_spec(b) + w.scale_spec(a) == w.scale_spec(a - b),
{
    ext::lemma_negate_scale(w, b);
    ext::lemma_scale_scalar_sub(w, a, b);
    ext::lemma_sub_is_add_neg(w.scale_spec(a), w.scale_spec(b));
    ext::lemma_add_comm(w.scale_spec(b).negate_spec(), w.scale_spec(a));
}

/// The term of an input slot at the `i`-th row after those of the cells.
spec fn input_term(shape: LeanAirShape, v: spec_fn(int, int) -> F, point: EF, c: int, i: int) -> EF {
    coefficients::input_coeff(shape, point, c, shape.systematic_start() + i).scale_spec(
        v(c, shape.systematic_start() + i),
    )
}

/// The term of an output slot for link `n`.
spec fn output_term(shape: LeanAirShape, v: spec_fn(int, int) -> F, point: EF, l: int, n: int) -> EF {
    let y: int = coefficients::link_place(shape, n);
    if y >= 0 {
        point.pow((8 * n + l) as nat).scale_spec(v(84 + l, y))
    } else {
        EF::zero_spec()
    }
}

/// The claim of an input slot as a sum over the rows after those of the cells.
proof fn lemma_input_slot(shape: LeanAirShape, v: spec_fn(int, int) -> F, point: EF, c: int)
    requires
        shape.valid(),
        0 <= c < 16,
    ensures
        sums::sum(
            shape.table_rows(),
            |row: int| coefficients::link_coeff(shape, point, c, row).scale_spec(v(claims::link_column(c), row)),
        ) == sums::sum(
            (shape.total_rows() - shape.systematic_start()) as nat,
            |i: int| input_term(shape, v, point, c, i),
        ),
{
    let _ = shape::lemma_shape(shape);
    links::lemma_starts(shape);
    arith::lemma_next_pow2((shape.total_rows() + 1) as nat);
    let f = |row: int| coefficients::link_coeff(shape, point, c, row).scale_spec(v(claims::link_column(c), row));
    let start: nat = shape.systematic_start();
    let len: nat = (shape.total_rows() - shape.systematic_start()) as nat;
    ext::lemma_scale_zero(EF::zero_spec());
    assert forall|i: int| 0 <= i < shape.table_rows() && !(start <= i < start + len) implies #[trigger] f(i)
        == EF::zero_spec() by {}
    sums::lemma_sum_window(start, len, shape.table_rows(), f);
    sums::lemma_sum_ext(len, |i: int| f(start + i), |i: int| input_term(shape, v, point, c, i));
}

/// The claim of an output slot as a sum over the links.
proof fn lemma_output_slot(shape: LeanAirShape, v: spec_fn(int, int) -> F, point: EF, l: int)
    requires
        shape.valid(),
        0 <= l < 8,
    ensures
        sums::sum(
            shape.table_rows(),
            |row: int|
                coefficients::link_coeff(shape, point, 16 + l, row).scale_spec(v(claims::link_column(16 + l), row)),
        ) == sums::sum(coefficients::n_links(shape), |n: int| output_term(shape, v, point, l, n)),
{
    let _ = shape::lemma_shape(shape);
    links::lemma_starts(shape);
    arith::lemma_next_pow2((shape.total_rows() + 1) as nat);
    let z = EF::zero_spec();
    let rows: nat = shape.table_rows();
    let count: nat = coefficients::n_links(shape);
    let place = |n: int| coefficients::link_place(shape, n);
    let w = |n: int| point.pow((8 * n + l) as nat);
    let e = |row: int| EF::from_base_spec(v(84 + l, row));
    assert forall|n: int| 0 <= n < count implies #[trigger] place(n) < rows by {
        lemma_source_above(shape, shape.systematic_start() + n / 2, n % 2);
    }
    sums::lemma_sum_gather(count, place, w, rows, e);
    let f = |row: int|
        coefficients::link_coeff(shape, point, 16 + l, row).scale_spec(v(claims::link_column(16 + l), row));
    let g = |y: int| sums::sum(count, |i: int| if place(i) == y { w(i) } else { z }) * e(y);
    assert forall|row: int| 0 <= row < rows implies #[trigger] f(row) == g(row) by {
        sums::lemma_sum_ext(
            count,
            |n: int| if coefficients::link_place(shape, n) == row { point.pow((8 * n + l) as nat) } else { z },
            |i: int| if place(i) == row { w(i) } else { z },
        );
        ext::lemma_scale_is_mul(coefficients::output_coeff(shape, point, l, row), v(84 + l, row));
    }
    sums::lemma_sum_ext(rows, f, g);
    let a = |i: int| if place(i) >= 0 { w(i) * e(place(i)) } else { z };
    let b = |n: int| output_term(shape, v, point, l, n);
    assert forall|n: int| 0 <= n < count implies #[trigger] a(n) == b(n) by {
        if place(n) >= 0 {
            ext::lemma_scale_is_mul(w(n), v(84 + l, place(n)));
        }
    }
    sums::lemma_sum_ext(count, a, b);
}

/// The terms of one element of an input and of its source are what the link fails by.
proof fn lemma_link_terms(shape: LeanAirShape, v: spec_fn(int, int) -> F, point: EF, side: int, l: int, i: int)
    requires
        shape.valid(),
        0 <= side < 2,
        0 <= l < 8,
        0 <= i < shape.total_rows() - shape.systematic_start(),
    ensures
        input_term(shape, v, point, 8 * side + l, i) + output_term(shape, v, point, l, 2 * i + side) == point.pow(
            (8 * (2 * i + side) + l) as nat,
        ).scale_spec(link_gap(shape, v, 2 * i + side, l)),
{
    let x: int = shape.systematic_start() + i;
    let c: int = 8 * side + l;
    let n: int = 2 * i + side;
    assert(n / 2 == i && n % 2 == side);
    assert(c / 8 == side);
    assert(16 * i + c == 8 * n + l);
    let _ = shape::lemma_shape(shape);
    links::lemma_starts(shape);
    lemma_source_above(shape, x, side);
    let w = point.pow((16 * i + c) as nat);
    match links::link_source(shape, x, side) {
        Some(y) => {
            lemma_scale_difference(w, v(84 + l, y), v(c, x));
        },
        None => {
            ext::lemma_scale_canonical(w, v(c, x));
            ext::lemma_add_zero(w.scale_spec(v(c, x)));
        },
    }
}

/// The link claim is the sum of what the links fail by, each with a power of the point of its own.
pub proof fn lemma_link_total(shape: LeanAirShape, v: spec_fn(int, int) -> F, point: EF)
    requires
        shape.valid(),
    ensures
        link_total(shape, v, point) == gap_sum(coefficients::n_links(shape), link_gaps(shape, v), point),
{
    let claim = |slot: int|
        sums::sum(
            shape.table_rows(),
            |row: int| coefficients::link_coeff(shape, point, slot, row).scale_spec(v(claims::link_column(slot), row)),
        );
    sums::lemma_sum_split(16, 8, claim);
    sums::lemma_sum_split(8, 8, claim);
    let a = |l: int| claim(l);
    let b = |l: int| claim(8nat + l);
    let d = |l: int| claim(16nat + l);
    sums::lemma_sum_ext(8, claim, a);
    sums::lemma_sum_add(8, a, b);
    let ab = |l: int| a(l) + b(l);
    sums::lemma_sum_add(8, ab, d);
    let all = |l: int| ab(l) + d(l);
    let count: nat = coefficients::n_links(shape);
    let gaps = link_gaps(shape, v);
    let goal = |l: int| sums::sum(count, |n: int| point.pow((8 * n + l) as nat).scale_spec(gaps(n, l)));
    let len: nat = (shape.total_rows() - shape.systematic_start()) as nat;
    let _ = shape::lemma_shape(shape);
    links::lemma_starts(shape);
    assert forall|l: int| 0 <= l < 8 implies #[trigger] all(l) == goal(l) by {
        lemma_input_slot(shape, v, point, l);
        lemma_input_slot(shape, v, point, 8 + l);
        lemma_output_slot(shape, v, point, l);
        let x0 = |i: int| input_term(shape, v, point, l, i);
        let x1 = |i: int| input_term(shape, v, point, 8 + l, i);
        let y = |n: int| output_term(shape, v, point, l, n);
        let gap = |n: int| point.pow((8 * n + l) as nat).scale_spec(gaps(n, l));
        sums::lemma_sum_even_odd(len, y);
        sums::lemma_sum_even_odd(len, gap);
        let y0 = |i: int| y(2 * i);
        let y1 = |i: int| y(2 * i + 1);
        let g0 = |i: int| gap(2 * i);
        let g1 = |i: int| gap(2 * i + 1);
        assert(coefficients::n_links(shape) == 2 * len);
        // (x0 + x1) + (y0 + y1) == (x0 + y0) + (x1 + y1)
        ext::lemma_add_exchange(sums::sum(len, x0), sums::sum(len, x1), sums::sum(len, y0), sums::sum(len, y1));
        sums::lemma_sum_add(len, x0, y0);
        sums::lemma_sum_add(len, x1, y1);
        let s0 = |i: int| x0(i) + y0(i);
        let s1 = |i: int| x1(i) + y1(i);
        assert forall|i: int| 0 <= i < len implies #[trigger] s0(i) == g0(i) by {
            lemma_link_terms(shape, v, point, 0, l, i);
            assert(2 * i + 0 == 2 * i);
        }
        assert forall|i: int| 0 <= i < len implies #[trigger] s1(i) == g1(i) by {
            lemma_link_terms(shape, v, point, 1, l, i);
        }
        sums::lemma_sum_ext(len, s0, g0);
        sums::lemma_sum_ext(len, s1, g1);
    }
    sums::lemma_sum_ext(8, all, goal);
}

/// The terms of two slots for one element, of which the second stand one row further on.
proof fn lemma_shifted(n: nat, f: spec_fn(int) -> EF, g: spec_fn(int) -> EF)
    requires
        n > 0,
        g(0) == EF::zero_spec(),
        f(n - 1) == EF::zero_spec(),
    ensures
        sums::sum(n, f) + sums::sum(n, g) == sums::sum((n - 1) as nat, |i: int| f(i) + g(i + 1)),
{
    let m: nat = (n - 1) as nat;
    ext::lemma_constants_canonical();
    sums::lemma_sum_first(n, g);
    let h = |i: int| g(1 + i);
    sums::lemma_sum_canonical(m, h);
    sums::lemma_sum_canonical(m, f);
    ext::lemma_add_zero(sums::sum(m, h));
    ext::lemma_add_zero(sums::sum(m, f));
    sums::lemma_sum_add(m, f, h);
    sums::lemma_sum_ext(m, |i: int| f(i) + h(i), |i: int| f(i) + g(i + 1));
}

/// What is left of a pair of slots at a row and the next.
spec fn step_term(shape: LeanAirShape, v: spec_fn(int, int) -> F, point: EF, l: int, row: int) -> EF {
    coefficients::cell_link_coeff(shape, point, l, row).scale_spec(v(84 + l, row)) + coefficients::cell_link_coeff(
        shape,
        point,
        8 + l,
        row + 1,
    ).scale_spec(v(l, row + 1))
}

proof fn lemma_step_term(shape: LeanAirShape, v: spec_fn(int, int) -> F, point: EF, l: int, row: int)
    requires
        shape.valid(),
        0 <= l < 8,
        0 <= row,
    ensures
        row < shape.systematic_start() && row % (shape.chunks() as int) < shape.chunks() - 1 ==> step_term(
            shape,
            v,
            point,
            l,
            row,
        ) == point.pow((8 * coefficients::cell_link_index(shape, row) + l) as nat).scale_spec(
            v(84 + l, row) - v(l, row + 1),
        ),
        !(row < shape.systematic_start() && row % (shape.chunks() as int) < shape.chunks() - 1) ==> step_term(
            shape,
            v,
            point,
            l,
            row,
        ) == EF::zero_spec(),
{
    let z = EF::zero_spec();
    let s: int = shape.systematic_start() as int;
    let chunks: int = shape.chunks() as int;
    let _ = shape::lemma_shape(shape);
    coefficients::lemma_cell_link_step(shape, row);
    ext::lemma_scale_zero(z);
    ext::lemma_constants_canonical();
    ext::lemma_add_zero(z);
    lemma_mod_bound(row, chunks);
    if row < s && row % chunks < chunks - 1 {
        // The next row is of the same cell.
        let q: int = row / chunks;
        let cells: int = shape.n_rows * shape.cells();
        links::lemma_encode(row, cells, chunks);
        assert(row + 1 < s) by (nonlinear_arith)
            requires
                row == q * chunks + row % chunks,
                row % chunks < chunks - 1,
                q < cells,
                s == cells * chunks,
                chunks > 0,
        ;
        let w = point.pow((8 * coefficients::cell_link_index(shape, row) + l) as nat);
        let (a, b) = (v(84 + l, row), v(l, row + 1));
        lemma_scale_difference(w, a, b);
        ext::lemma_add_comm(w.scale_spec(a), w.negate_spec().scale_spec(b));
    }
}

/// The steps of the rows of the cells, one element of each.
proof fn lemma_steps(shape: LeanAirShape, v: spec_fn(int, int) -> F, point: EF, l: int)
    requires
        shape.valid(),
        0 <= l < 8,
    ensures
        sums::sum(shape.systematic_start(), |row: int| step_term(shape, v, point, l, row)) == sums::sum(
            n_cell_links(shape),
            |m: int| point.pow((8 * m + l) as nat).scale_spec(cell_link_gap(shape, v, m, l)),
        ),
{
    let z = EF::zero_spec();
    let _ = shape::lemma_shape(shape);
    let chunks: nat = shape.chunks();
    let inner: nat = (chunks - 1) as nat;
    let cells: nat = shape.n_rows as nat * shape.cells();
    let h = |row: int| step_term(shape, v, point, l, row);
    let g = |m: int| point.pow((8 * m + l) as nat).scale_spec(cell_link_gap(shape, v, m, l));
    sums::lemma_sum_blocks(cells, chunks, h);
    sums::lemma_sum_blocks(cells, inner, g);
    let a = |q: int| sums::sum(chunks, |j: int| h(q * chunks + j));
    let b = |q: int| sums::sum(inner, |j: int| g(q * inner + j));
    assert forall|q: int| 0 <= q < cells implies #[trigger] a(q) == b(q) by {
        let x = |j: int| h(q * chunks + j);
        let y = |j: int| g(q * inner + j);
        assert forall|j: int| 0 <= j < chunks implies (q * chunks + j) / (chunks as int) == q && (q * chunks + j) % (
        chunks as int) == j && 0 <= #[trigger] (q * chunks + j) < shape.systematic_start() by {
            commit::lemma_decode(q, j, chunks as int);
            schedule::lemma_block_bound(q, cells as int, j, chunks as int);
        }
        assert forall|j: int| 0 <= j < inner implies #[trigger] x(j) == y(j) by {
            let row: int = q * chunks + j;
            let m: int = q * inner + j;
            commit::lemma_decode(q, j, inner as int);
            commit::lemma_decode(q, j, chunks as int);
            schedule::lemma_block_bound(q, cells as int, j, chunks as int);
            lemma_step_term(shape, v, point, l, row);
            assert(coefficients::cell_link_index(shape, row) == m);
            assert(cell_link_row(shape, m) == row);
        }
        sums::lemma_sum_ext(inner, x, y);
        let last: int = q * chunks + inner;
        commit::lemma_decode(q, inner as int, chunks as int);
        schedule::lemma_block_bound(q, cells as int, inner as int, chunks as int);
        lemma_step_term(shape, v, point, l, last);
        assert(x(inner as int) == z);
        sums::lemma_sum_canonical(inner, x);
        ext::lemma_add_zero(sums::sum(inner, x));
    }
    sums::lemma_sum_ext(cells, a, b);
}

/// The claim on the steps of cell hashes is the sum of what the steps fail by, each with a power of
/// the point of its own.
pub proof fn lemma_cell_link_total(shape: LeanAirShape, v: spec_fn(int, int) -> F, point: EF)
    requires
        shape.valid(),
    ensures
        cell_link_total(shape, v, point) == gap_sum(n_cell_links(shape), cell_link_gaps(shape, v), point),
{
    let z = EF::zero_spec();
    let n: nat = shape.table_rows();
    let s: nat = shape.systematic_start();
    let _ = shape::lemma_shape(shape);
    links::lemma_starts(shape);
    arith::lemma_next_pow2((shape.total_rows() + 1) as nat);
    let claim = |slot: int|
        sums::sum(
            n,
            |row: int|
                coefficients::cell_link_coeff(shape, point, slot, row).scale_spec(
                    v(claims::cell_link_column_of(slot), row),
                ),
        );
    sums::lemma_sum_ext(
        16,
        claim,
        |slot: int|
            sums::sum(
                shape.table_rows(),
                |row: int|
                    coefficients::cell_link_coeff(shape, point, slot, row).scale_spec(
                        v(claims::cell_link_column_of(slot), row),
                    ),
            ),
    );
    sums::lemma_sum_split(8, 8, claim);
    let first = |l: int| claim(l);
    let second = |l: int| claim(8nat + l);
    sums::lemma_sum_ext(8, claim, first);
    sums::lemma_sum_add(8, first, second);
    let both = |l: int| first(l) + second(l);
    let count: nat = n_cell_links(shape);
    let gaps = cell_link_gaps(shape, v);
    let goal = |l: int| sums::sum(count, |n: int| point.pow((8 * n + l) as nat).scale_spec(gaps(n, l)));
    assert forall|l: int| 0 <= l < 8 implies #[trigger] both(l) == goal(l) by {
        let f = |row: int| coefficients::cell_link_coeff(shape, point, l, row).scale_spec(v(84 + l, row));
        let g = |row: int| coefficients::cell_link_coeff(shape, point, 8 + l, row).scale_spec(v(l, row));
        sums::lemma_sum_ext(
            n,
            f,
            |row: int|
                coefficients::cell_link_coeff(shape, point, l, row).scale_spec(
                    v(claims::cell_link_column_of(l), row),
                ),
        );
        sums::lemma_sum_ext(
            n,
            g,
            |row: int|
                coefficients::cell_link_coeff(shape, point, 8nat + l, row).scale_spec(
                    v(claims::cell_link_column_of(8nat + l), row),
                ),
        );
        ext::lemma_scale_zero(z);
        lemma_small_mod(0, shape.chunks());
        assert(g(0) == z);
        assert(f(n - 1) == z);
        lemma_shifted(n, f, g);
        let h = |row: int| step_term(shape, v, point, l, row);
        let m: nat = (n - 1) as nat;
        sums::lemma_sum_ext(m, |i: int| f(i) + g(i + 1), h);
        assert forall|i: int| 0 <= i < m && !(0 <= i < 0 + s) implies #[trigger] h(i) == z by {
            lemma_step_term(shape, v, point, l, i);
        }
        sums::lemma_sum_window(0, s, m, h);
        sums::lemma_sum_ext(s, |i: int| h(0nat + i), |row: int| step_term(shape, v, point, l, row));
        lemma_steps(shape, v, point, l);
        sums::lemma_sum_ext(
            count,
            |m: int| point.pow((8 * m + l) as nat).scale_spec(cell_link_gap(shape, v, m, l)),
            |n: int| point.pow((8 * n + l) as nat).scale_spec(gaps(n, l)),
        );
    }
    sums::lemma_sum_ext(8, both, goal);
}

/// The polynomial whose coefficients are what links fail by.
spec fn gap_poly(count: nat, gap: spec_fn(int, int) -> F) -> Seq<EF> {
    Seq::new(count * 8, |e: int| EF::from_base_spec(gap(e / 8, e % 8)))
}

/// The sum of gaps with powers of a point is the value of their polynomial there.
proof fn lemma_gap_poly(count: nat, gap: spec_fn(int, int) -> F, point: EF)
    requires
        forall|n: int, l: int| 0 <= n < count && 0 <= l < 8 ==> (#[trigger] gap(n, l)).canonical(),
    ensures
        gap_sum(count, gap, point) == poly::poly_at(gap_poly(count, gap), point),
{
    let c = gap_poly(count, gap);
    assert forall|e: int| 0 <= e < c.len() implies (#[trigger] c[e]).canonical() by {
        assert(gap(e / 8, e % 8).canonical());
        ext::lemma_from_base_canonical(gap(e / 8, e % 8));
    }
    detection::lemma_at_is_sum(c, point);
    let f = |e: int| point.pow(e as nat) * c[e];
    sums::lemma_sum_blocks(count, 8, f);
    let t = |l: int, n: int| point.pow((8 * n + l) as nat).scale_spec(gap(n, l));
    sums::lemma_sum_swap(8, count, t);
    let a = |n: int| sums::sum(8, |l: int| t(l, n));
    let b = |n: int| sums::sum(8, |j: int| f(n * 8nat + j));
    assert forall|n: int| 0 <= n < count implies #[trigger] a(n) == b(n) by {
        let x = |l: int| t(l, n);
        let y = |j: int| f(n * 8nat + j);
        assert forall|l: int| 0 <= l < 8 implies #[trigger] x(l) == y(l) by {
            let e: int = 8 * n + l;
            assert(e / 8 == n && e % 8 == l);
            assert(n * 8nat + l == e);
            let w = point.pow(e as nat);
            assert(c[e] == EF::from_base_spec(gap(n, l)));
            ext::lemma_scale_is_mul(w, gap(n, l));
        }
        sums::lemma_sum_ext(8, x, y);
    }
    sums::lemma_sum_ext(count, a, b);
    let outer = |l: int| sums::sum(count, |n: int| point.pow((8 * n + l) as nat).scale_spec(gap(n, l)));
    let swapped = |l: int| sums::sum(count, |n: int| t(l, n));
    assert forall|l: int| 0 <= l < 8 implies #[trigger] outer(l) == swapped(l) by {
        sums::lemma_sum_ext(
            count,
            |n: int| point.pow((8 * n + l) as nat).scale_spec(gap(n, l)),
            |n: int| t(l, n),
        );
    }
    sums::lemma_sum_ext(8, outer, swapped);
}

/// Gaps whose sums vanish at as many points as there are powers are zero.
proof fn lemma_gaps_vanish(count: nat, gap: spec_fn(int, int) -> F, points: Seq<EF>, n: int, l: int)
    requires
        forall|n: int, l: int| 0 <= n < count && 0 <= l < 8 ==> (#[trigger] gap(n, l)).canonical(),
        points.len() >= 8 * count,
        poly::apart(points),
        forall|i: int|
            0 <= i < points.len() ==> poly::poly_at(gap_poly(count, gap), #[trigger] points[i]) == EF::zero_spec(),
        0 <= n < count,
        0 <= l < 8,
    ensures
        gap(n, l) == F::zero_spec(),
{
    let c = gap_poly(count, gap);
    let e: int = 8 * n + l;
    assert(e / 8 == n && e % 8 == l);
    assert forall|e: int| 0 <= e < c.len() implies (#[trigger] c[e]).canonical() by {
        assert(gap(e / 8, e % 8).canonical());
        ext::lemma_from_base_canonical(gap(e / 8, e % 8));
    }
    poly::law_zeros_determine(c, points, e);
    assert(c[e] == EF::from_base_spec(gap(n, l)));
}

/// Whether columns hold canonical values for every row of the table.
pub open spec fn canonical_values(shape: LeanAirShape, v: spec_fn(int, int) -> F) -> bool {
    forall|c: int, row: int| 0 <= c < 92 && 0 <= row < shape.table_rows() ==> (#[trigger] v(c, row)).canonical()
}

/// Whether element `c` of the input of a row after those of the cells is the one of the output of its
/// source, or zero where it has none.
pub open spec fn linked(shape: LeanAirShape, v: spec_fn(int, int) -> F, x: int, c: int) -> bool {
    v(c, x) == match links::link_source(shape, x, c / 8) {
        Some(y) => v(84 + c % 8, y),
        None => F::zero_spec(),
    }
}

/// Whether element `l` of the input of the row after `x` is the one of the output of `x`.
pub open spec fn stepped(v: spec_fn(int, int) -> F, x: int, l: int) -> bool {
    v(l, x + 1) == v(84 + l, x)
}

/// Whether all links hold of columns: those of the rows after those of the cells, and the steps of
/// cell hashes.
pub open spec fn wired(shape: LeanAirShape, v: spec_fn(int, int) -> F) -> bool {
    &&& forall|x: int, c: int|
        shape.systematic_start() <= x < shape.total_rows() && 0 <= c < 16 ==> #[trigger] linked(shape, v, x, c)
    &&& forall|x: int, l: int|
        0 <= x < shape.systematic_start() && x % (shape.chunks() as int) < shape.chunks() - 1 && 0 <= l < 8
            ==> #[trigger] stepped(v, x, l)
}

/// The links hold of any columns whose link claim vanishes at as many points as it has powers: every
/// element of the input of a row after those of the cells is the one of the output of its source, or
/// zero where it has none.
pub proof fn law_vanishing_links_hold(
    shape: LeanAirShape,
    v: spec_fn(int, int) -> F,
    points: Seq<EF>,
    x: int,
    c: int,
)
    requires
        shape.valid(),
        canonical_values(shape, v),
        points.len() >= 8 * coefficients::n_links(shape),
        poly::apart(points),
        forall|i: int| 0 <= i < points.len() ==> link_total(shape, v, #[trigger] points[i]) == EF::zero_spec(),
        shape.systematic_start() <= x < shape.total_rows(),
        0 <= c < 16,
    ensures
        linked(shape, v, x, c),
{
    let count: nat = coefficients::n_links(shape);
    let gap = link_gaps(shape, v);
    let _ = shape::lemma_shape(shape);
    links::lemma_starts(shape);
    arith::lemma_next_pow2((shape.total_rows() + 1) as nat);
    assert forall|n: int, l: int| 0 <= n < count && 0 <= l < 8 implies (#[trigger] gap(n, l)).canonical() by {
        let row: int = shape.systematic_start() + n / 2;
        let input = v(8 * (n % 2) + l, row);
        assert(input.canonical());
        match links::link_source(shape, row, n % 2) {
            Some(y) => {
                field::lemma_of_val(v(84 + l, y).val() - input.val());
            },
            None => {},
        }
    }
    assert forall|i: int| 0 <= i < points.len() implies poly::poly_at(gap_poly(count, gap), #[trigger] points[i])
        == EF::zero_spec() by {
        let point = points[i];
        assert(link_total(shape, v, points[i]) == EF::zero_spec());
        lemma_link_total(shape, v, point);
        lemma_gap_poly(count, gap, point);
    }
    let n: int = 2 * (x - shape.systematic_start()) + c / 8;
    let l: int = c % 8;
    assert(n / 2 == x - shape.systematic_start() && n % 2 == c / 8);
    lemma_gaps_vanish(count, gap, points, n, l);
    assert(8 * (n % 2) + l == c);
    match links::link_source(shape, x, c / 8) {
        Some(y) => {
            lemma_source_above(shape, x, c / 8);
            assert(v(84 + l, y).canonical() && v(c, x).canonical());
            field::lemma_sub_zero_iff(v(84 + l, y), v(c, x));
        },
        None => {},
    }
}

/// The steps of cell hashes hold of any columns whose claim on them vanishes at as many points as it
/// has powers: the first half of the input of a row is the output of the row above it, where both are
/// of one cell.
pub proof fn law_vanishing_cell_links_hold(
    shape: LeanAirShape,
    v: spec_fn(int, int) -> F,
    points: Seq<EF>,
    x: int,
    l: int,
)
    requires
        shape.valid(),
        canonical_values(shape, v),
        points.len() >= 8 * n_cell_links(shape),
        poly::apart(points),
        forall|i: int| 0 <= i < points.len() ==> cell_link_total(shape, v, #[trigger] points[i]) == EF::zero_spec(),
        0 <= x < shape.systematic_start(),
        x % (shape.chunks() as int) < shape.chunks() - 1,
        0 <= l < 8,
    ensures
        stepped(v, x, l),
{
    let count: nat = n_cell_links(shape);
    let chunks: int = shape.chunks() as int;
    let inner: int = chunks - 1;
    let cells: int = shape.n_rows * shape.cells();
    let gap = cell_link_gaps(shape, v);
    let _ = shape::lemma_shape(shape);
    links::lemma_starts(shape);
    arith::lemma_next_pow2((shape.total_rows() + 1) as nat);
    assert forall|m: int, l: int| 0 <= m < count && 0 <= l < 8 implies (#[trigger] gap(m, l)).canonical() by {
        let row: int = cell_link_row(shape, m);
        field::lemma_of_val(v(84 + l, row).val() - v(l, row + 1).val());
    }
    assert forall|i: int| 0 <= i < points.len() implies poly::poly_at(gap_poly(count, gap), #[trigger] points[i])
        == EF::zero_spec() by {
        let point = points[i];
        assert(cell_link_total(shape, v, points[i]) == EF::zero_spec());
        lemma_cell_link_total(shape, v, point);
        lemma_gap_poly(count, gap, point);
    }
    links::lemma_encode(x, cells, chunks);
    let q: int = x / chunks;
    let j: int = x % chunks;
    let m: int = q * inner + j;
    commit::lemma_decode(q, j, inner);
    schedule::lemma_block_bound(q, cells, j, inner);
    assert(cell_link_row(shape, m) == x);
    lemma_gaps_vanish(count, gap, points, m, l);
    assert(v(84 + l, x).canonical() && v(l, x + 1).canonical());
    field::lemma_sub_zero_iff(v(84 + l, x), v(l, x + 1));
}

} // verus!
