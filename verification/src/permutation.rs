//! The permutation as it is usually written: dense rounds, of which the sparse form is a factorisation.
use crate::algebra::Ring;
use crate::field;
use crate::field::F;
use crate::poseidon;
use crate::poseidon::PoseidonConstants;
use vstd::prelude::*;

verus! {

/// `f(0) + ... + f(n - 1)`.
pub open spec fn total(n: nat, f: spec_fn(int) -> F) -> F
    decreases n,
{
    if n == 0 {
        F::zero_spec()
    } else {
        total((n - 1) as nat, f) + f(n - 1)
    }
}

/// The product of a matrix of sixteen rows and columns with a vector.
pub open spec fn applied(m: spec_fn(int, int) -> F, s: Seq<F>) -> Seq<F> {
    Seq::new(16, |i: int| total(16, |j: int| m(i, j) * s[j]))
}

/// The entries of a matrix.
pub open spec fn entries(rows: [[F; 16]; 16]) -> spec_fn(int, int) -> F {
    |i: int, j: int| rows@[i]@[j]
}

/// The sum of two vectors.
pub open spec fn added(a: Seq<F>, b: Seq<F>) -> Seq<F> {
    Seq::new(16, |i: int| a[i] + b[i])
}

/// The matrix that leaves every vector as it is.
pub open spec fn identity() -> spec_fn(int, int) -> F {
    |i: int, j: int|
        if i == j {
            F::one_spec()
        } else {
            F::zero_spec()
        }
}

/// The matrix of the linear layer of a partial round: its first row, its first column, and ones on
/// the rest of the diagonal. Row `i` below the first takes entry `i - 1` of the column.
pub open spec fn sparse_matrix(k: PoseidonConstants, r: int) -> spec_fn(int, int) -> F {
    |i: int, j: int|
        if i == 0 {
            k.sparse_first_row@[r]@[j]
        } else if j == 0 {
            k.sparse_v@[r]@[i - 1]
        } else if i == j {
            F::one_spec()
        } else {
            F::zero_spec()
        }
}

/// The constant that is added to the cube of a partial round; none is in the last.
pub open spec fn scalar(k: PoseidonConstants, r: int) -> F {
    if r < 19 {
        k.sparse_scalar@[r]
    } else {
        F::zero_spec()
    }
}

/// A vector whose first element is the given one, and zeros.
pub open spec fn first_only(a: F) -> Seq<F> {
    Seq::new(
        16,
        |i: int|
            if i == 0 {
                a
            } else {
                F::zero_spec()
            },
    )
}

/// The constants are added, and every element is cubed in a full round, the first alone in a partial
/// one.
pub open spec fn cubed(c: Seq<F>, full: bool, s: Seq<F>) -> Seq<F> {
    Seq::new(
        16,
        |i: int|
            if full || i == 0 {
                (s[i] + c[i]).pow(3)
            } else {
                s[i] + c[i]
            },
    )
}

/// A round of the permutation: its cubes, and then the linear layer.
pub open spec fn round(m: spec_fn(int, int) -> F, c: Seq<F>, full: bool, s: Seq<F>) -> Seq<F> {
    applied(m, cubed(c, full, s))
}

/// The state after `n` rounds: four full ones, twenty partial ones, four full ones.
pub open spec fn state_after(m: spec_fn(int, int) -> F, c: spec_fn(int) -> Seq<F>, s: Seq<F>, n: nat) -> Seq<F>
    decreases n,
{
    if n == 0 {
        s
    } else {
        round(m, c(n - 1), n - 1 < 4 || n - 1 >= 24, state_after(m, c, s, (n - 1) as nat))
    }
}

/// The constants of all rounds, where those of the partial rounds are given.
pub open spec fn round_constants(k: PoseidonConstants, partial: Seq<Seq<F>>) -> spec_fn(int) -> Seq<F> {
    |r: int|
        if r < 4 {
            k.initial@[r]@
        } else if r < 24 {
            partial[r - 4]
        } else {
            k.ending@[r - 24]@
        }
}

/// Whether a matrix keeps the first element and the others apart, and the first as it is.
pub open spec fn keeps_first(m: spec_fn(int, int) -> F) -> bool {
    &&& m(0, 0) == F::one_spec()
    &&& forall|j: int| 1 <= j < 16 ==> #[trigger] m(0, j) == F::zero_spec()
    &&& forall|i: int| 1 <= i < 16 ==> #[trigger] m(i, 0) == F::zero_spec()
}

/// An entry of the product of two matrices.
pub open spec fn product_entry(a: spec_fn(int, int) -> F, b: spec_fn(int, int) -> F, i: int, l: int) -> F {
    total(16, |j: int| a(i, j) * b(j, l))
}

/// Whether two products of matrices are the same: `a b` and `c d`.
pub open spec fn same_product(
    a: spec_fn(int, int) -> F,
    b: spec_fn(int, int) -> F,
    c: spec_fn(int, int) -> F,
    d: spec_fn(int, int) -> F,
) -> bool {
    forall|i: int, l: int|
        0 <= i < 16 && 0 <= l < 16 ==> #[trigger] product_entry(a, b, i, l) == product_entry(c, d, i, l)
}

/// Whether the sparse constants factorise the partial rounds with the dense linear layer and the
/// constants `partial`. Before every round the sparse state is the dense one with an offset, times a
/// matrix that keeps the first element: at the start these are the constants and the matrix that are
/// applied on entering, at the end nothing is left of them.
pub open spec fn factorises(
    k: PoseidonConstants,
    partial: Seq<Seq<F>>,
    change: spec_fn(int) -> spec_fn(int, int) -> F,
    offset: spec_fn(int) -> Seq<F>,
) -> bool {
    &&& forall|r: int| 0 <= r <= 20 ==> keeps_first(#[trigger] change(r))
    &&& forall|i: int, j: int| 0 <= i < 16 && 0 <= j < 16 ==> #[trigger] change(0)(i, j) == k.sparse_m_i@[i]@[j]
    &&& forall|i: int, j: int| 0 <= i < 16 && 0 <= j < 16 ==> #[trigger] change(20)(i, j) == identity()(i, j)
    &&& forall|i: int| 0 <= i < 16 ==> #[trigger] offset(0)[i] == k.sparse_first_round@[i]
    &&& forall|i: int| 0 <= i < 16 ==> #[trigger] offset(20)[i] == F::zero_spec()
    &&& forall|r: int| 0 <= r < 20 ==> #[trigger] offset(r)[0] == partial[r][0]
    &&& forall|r: int|
        0 <= r < 20 ==> same_product(
            sparse_matrix(k, r),
            #[trigger] change(r),
            change(r + 1),
            entries(k.mds),
        )
    &&& forall|r: int|
        0 <= r < 20 ==> applied(change(r + 1), offset(r + 1)) == applied(
            sparse_matrix(k, r),
            added(
                applied(#[trigger] change(r), Seq::new(16, |i: int| offset(r)[i] - partial[r][i])),
                first_only(scalar(k, r)),
            ),
        )
}

proof fn lemma_total_ext(n: nat, f: spec_fn(int) -> F, g: spec_fn(int) -> F)
    requires
        forall|i: int| 0 <= i < n ==> #[trigger] f(i) == g(i),
    ensures
        total(n, f) == total(n, g),
    decreases n,
{
    if n > 0 {
        lemma_total_ext((n - 1) as nat, f, g);
        assert(f(n - 1) == g(n - 1));
    }
}

pub proof fn lemma_total_canonical(n: nat, f: spec_fn(int) -> F)
    ensures
        total(n, f).canonical(),
{
    field::lemma_of_val(0);
    if n > 0 {
        field::lemma_of_val(total((n - 1) as nat, f).val() + f(n - 1).val());
    }
}

proof fn lemma_total_add(n: nat, f: spec_fn(int) -> F, g: spec_fn(int) -> F)
    ensures
        total(n, |i: int| f(i) + g(i)) == total(n, f) + total(n, g),
    decreases n,
{
    let both = |i: int| f(i) + g(i);
    let z = F::zero_spec();
    if n == 0 {
        field::lemma_of_val(0);
        field::lemma_add_zero(z);
    } else {
        let m: nat = (n - 1) as nat;
        lemma_total_add(m, f, g);
        let (a, b, c, d) = (total(m, f), total(m, g), f(n - 1), g(n - 1));
        // (a + b) + (c + d) == (a + c) + (b + d)
        field::lemma_add_assoc(a, b, c + d);
        field::lemma_add_assoc(b, c, d);
        field::lemma_add_comm(b, c);
        field::lemma_add_assoc(c, b, d);
        field::lemma_add_assoc(a, c, b + d);
        assert(total(n, both) == total(m, both) + (c + d));
    }
}

proof fn lemma_total_mul(n: nat, k: F, f: spec_fn(int) -> F)
    ensures
        total(n, |i: int| k * f(i)) == k * total(n, f),
        total(n, |i: int| f(i) * k) == total(n, f) * k,
    decreases n,
{
    let left = |i: int| k * f(i);
    let right = |i: int| f(i) * k;
    if n == 0 {
        field::lemma_mul_zero(k);
    } else {
        let m: nat = (n - 1) as nat;
        lemma_total_mul(m, k, f);
        field::lemma_mul_distrib(k, total(m, f), f(n - 1));
        assert(total(n, left) == total(m, left) + k * f(n - 1));
        assert(total(n, right) == total(m, right) + f(n - 1) * k);
    }
}

proof fn lemma_total_zero(n: nat, f: spec_fn(int) -> F)
    requires
        forall|i: int| 0 <= i < n ==> #[trigger] f(i) == F::zero_spec(),
    ensures
        total(n, f) == F::zero_spec(),
    decreases n,
{
    if n > 0 {
        lemma_total_zero((n - 1) as nat, f);
        field::lemma_of_val(0);
        field::lemma_add_zero(F::zero_spec());
    }
}

proof fn lemma_total_swap(n: nat, m: nat, f: spec_fn(int, int) -> F)
    ensures
        total(n, |i: int| total(m, |j: int| f(i, j))) == total(m, |j: int| total(n, |i: int| f(i, j))),
    decreases n,
{
    let rows = |i: int| total(m, |j: int| f(i, j));
    let columns = |j: int| total(n, |i: int| f(i, j));
    if n == 0 {
        lemma_total_zero(m, columns);
    } else {
        let p: nat = (n - 1) as nat;
        lemma_total_swap(p, m, f);
        let above = |j: int| total(p, |i: int| f(i, j));
        let last = |j: int| f(n - 1, j);
        lemma_total_add(m, above, last);
        assert forall|j: int| 0 <= j < m implies #[trigger] columns(j) == above(j) + last(j) by {
            let g = |i: int| f(i, j);
            assert(total(n, g) == total(p, g) + g(n - 1));
        }
        lemma_total_ext(m, columns, |j: int| above(j) + last(j));
        assert(total(n, rows) == total(p, rows) + rows(n - 1));
        lemma_total_ext(m, |j: int| f(n - 1, j), last);
    }
}

/// A sum with one term at most.
proof fn lemma_total_single(n: nat, f: spec_fn(int) -> F, at: int)
    requires
        0 <= at < n,
        f(at).canonical(),
        forall|i: int| 0 <= i < n && i != at ==> #[trigger] f(i) == F::zero_spec(),
    ensures
        total(n, f) == f(at),
    decreases n,
{
    let m: nat = (n - 1) as nat;
    if at == n - 1 {
        lemma_total_zero(m, f);
        field::lemma_add_zero(f(at));
    } else {
        lemma_total_single(m, f, at);
        assert(f(n - 1) == F::zero_spec());
        field::lemma_add_zero(f(at));
    }
}

/// The product with a matrix, by its definition in the sparse form.
proof fn lemma_dot(s: Seq<F>, row: Seq<F>, n: nat)
    ensures
        poseidon::dot(s, row, n) == total(n, |j: int| row[j] * s[j]),
    decreases n,
{
    let f = |j: int| row[j] * s[j];
    if n > 0 {
        lemma_dot(s, row, (n - 1) as nat);
        field::lemma_mul_comm(s[n - 1], row[n - 1]);
        assert(total(n, f) == total((n - 1) as nat, f) + f(n - 1));
    }
}

pub proof fn lemma_mat_vec(mat: [[F; 16]; 16], s: Seq<F>)
    ensures
        poseidon::mat_vec(mat@, s) == applied(entries(mat), s),
{
    let left = poseidon::mat_vec(mat@, s);
    let right = applied(entries(mat), s);
    assert forall|i: int| 0 <= i < 16 implies #[trigger] left[i] == right[i] by {
        lemma_dot(s, mat@[i]@, 16);
        lemma_total_ext(16, |j: int| mat@[i]@[j] * s[j], |j: int| entries(mat)(i, j) * s[j]);
    }
    assert(left =~= right);
}

pub proof fn lemma_cube(a: F)
    ensures
        a.pow(3) == poseidon::cube_spec(a),
        a.pow(3).canonical(),
{
    reveal_with_fuel(F::pow, 4);
    field::lemma_of_val(1);
    field::lemma_of_val(a.pow(2).val() * a.val());
    // 1 * a * a * a
    field::lemma_mul_assoc(F::one_spec(), a, a);
    field::lemma_of_val(a.val() * a.val());
    field::lemma_mul_one(a * a);
}

/// A full round of the sparse form is one of the permutation.
pub proof fn lemma_full_round(k: PoseidonConstants, c: Seq<F>, s: Seq<F>)
    ensures
        poseidon::full_round(k, c, s) == round(entries(k.mds), c, true, s),
{
    let cubes = Seq::new(16, |i: int| poseidon::cube_spec(s[i].plus_base_spec(c[i])));
    let powers = cubed(c, true, s);
    assert forall|i: int| 0 <= i < 16 implies #[trigger] cubes[i] == powers[i] by {
        lemma_cube(s[i] + c[i]);
    }
    assert(cubes =~= powers);
    lemma_mat_vec(k.mds, cubes);
}

/// A partial round multiplies the state, with the cube and its constant in the first place, by the
/// sparse matrix of the round: what is added to element `i` is the first element times the entry of
/// its own row.
pub proof fn law_partial_round_is_sparse_product(k: PoseidonConstants, r: int, s: Seq<F>, cell: F)
    requires
        0 <= r < 20,
        s.len() == 16,
        cell.canonical(),
        forall|i: int| 0 <= i < 16 ==> (#[trigger] s[i]).canonical(),
    ensures
        poseidon::partial_step(k, r, s, cell) == applied(sparse_matrix(k, r), s.update(0, cell + scalar(k, r))),
{
    let first = if r < 19 {
        cell + k.sparse_scalar@[r]
    } else {
        cell
    };
    field::lemma_add_zero(cell);
    assert(first == cell + scalar(k, r));
    let t = s.update(0, first);
    let m = sparse_matrix(k, r);
    let left = poseidon::partial_step(k, r, s, cell);
    let right = applied(m, t);
    assert forall|i: int| 0 <= i < 16 implies #[trigger] left[i] == right[i] by {
        let f = |j: int| m(i, j) * t[j];
        if i == 0 {
            lemma_dot(t, k.sparse_first_row@[r]@, 16);
            lemma_total_ext(16, |j: int| k.sparse_first_row@[r]@[j] * t[j], f);
        } else {
            let head = |j: int|
                if j == 0 {
                    f(0)
                } else {
                    F::zero_spec()
                };
            let own = |j: int|
                if j == i {
                    f(i)
                } else {
                    F::zero_spec()
                };
            field::lemma_of_val(m(i, 0).val() * t[0].val());
            field::lemma_of_val(m(i, i).val() * t[i].val());
            assert forall|j: int| 0 <= j < 16 implies #[trigger] f(j) == head(j) + own(j) by {
                field::lemma_of_val(0);
                if j == 0 {
                    field::lemma_add_zero(f(0));
                } else if j == i {
                    field::lemma_add_zero(f(i));
                } else {
                    field::lemma_mul_zero(t[j]);
                    field::lemma_add_zero(F::zero_spec());
                }
            }
            lemma_total_ext(16, f, |j: int| head(j) + own(j));
            lemma_total_add(16, head, own);
            lemma_total_single(16, head, 0);
            lemma_total_single(16, own, i);
            field::lemma_mul_one(t[i]);
            field::lemma_mul_comm(first, k.sparse_v@[r]@[i - 1]);
            field::lemma_add_comm(f(0), f(i));
        }
    }
    assert(left =~= right);
}

/// Matrices whose products are the same do the same to a vector.
proof fn lemma_same_product(
    a: spec_fn(int, int) -> F,
    b: spec_fn(int, int) -> F,
    c: spec_fn(int, int) -> F,
    d: spec_fn(int, int) -> F,
    s: Seq<F>,
)
    requires
        same_product(a, b, c, d),
    ensures
        applied(a, applied(b, s)) == applied(c, applied(d, s)),
{
    let left = applied(a, applied(b, s));
    let right = applied(c, applied(d, s));
    assert forall|i: int| 0 <= i < 16 implies #[trigger] left[i] == right[i] by {
        lemma_two_products(a, b, s, i);
        lemma_two_products(c, d, s, i);
        let f = |l: int| product_entry(a, b, i, l) * s[l];
        let g = |l: int| product_entry(c, d, i, l) * s[l];
        assert forall|l: int| 0 <= l < 16 implies #[trigger] f(l) == g(l) by {
            assert(product_entry(a, b, i, l) == product_entry(c, d, i, l));
        }
        lemma_total_ext(16, f, g);
    }
    assert(left =~= right);
}

/// One element of a vector that two matrices are applied to.
proof fn lemma_two_products(a: spec_fn(int, int) -> F, b: spec_fn(int, int) -> F, s: Seq<F>, i: int)
    requires
        0 <= i < 16,
    ensures
        applied(a, applied(b, s))[i] == total(16, |l: int| product_entry(a, b, i, l) * s[l]),
{
    let inner = applied(b, s);
    let f = |j: int| a(i, j) * inner[j];
    let t = |j: int, l: int| (a(i, j) * b(j, l)) * s[l];
    assert forall|j: int| 0 <= j < 16 implies #[trigger] f(j) == total(16, |l: int| t(j, l)) by {
        let g = |l: int| b(j, l) * s[l];
        lemma_total_mul(16, a(i, j), g);
        assert forall|l: int| 0 <= l < 16 implies #[trigger] t(j, l) == a(i, j) * g(l) by {
            field::lemma_mul_assoc(a(i, j), b(j, l), s[l]);
        }
        lemma_total_ext(16, |l: int| t(j, l), |l: int| a(i, j) * g(l));
    }
    lemma_total_ext(16, f, |j: int| total(16, |l: int| t(j, l)));
    lemma_total_swap(16, 16, t);
    let u = |l: int| total(16, |j: int| t(j, l));
    let v = |l: int| product_entry(a, b, i, l) * s[l];
    assert forall|l: int| 0 <= l < 16 implies #[trigger] u(l) == v(l) by {
        let h = |j: int| a(i, j) * b(j, l);
        lemma_total_mul(16, s[l], h);
        lemma_total_ext(16, h, |j: int| a(i, j) * b(j, l));
        lemma_total_ext(16, |j: int| t(j, l), |j: int| h(j) * s[l]);
    }
    lemma_total_ext(16, u, v);
}

/// A matrix applied to a sum.
proof fn lemma_applied_add(m: spec_fn(int, int) -> F, a: Seq<F>, b: Seq<F>)
    ensures
        applied(m, added(a, b)) == added(applied(m, a), applied(m, b)),
{
    let left = applied(m, added(a, b));
    let right = added(applied(m, a), applied(m, b));
    assert forall|i: int| 0 <= i < 16 implies #[trigger] left[i] == right[i] by {
        let f = |j: int| m(i, j) * a[j];
        let g = |j: int| m(i, j) * b[j];
        assert forall|j: int| 0 <= j < 16 implies m(i, j) * #[trigger] added(a, b)[j] == f(j) + g(j) by {
            field::lemma_mul_distrib(m(i, j), a[j], b[j]);
        }
        lemma_total_ext(16, |j: int| m(i, j) * added(a, b)[j], |j: int| f(j) + g(j));
        lemma_total_add(16, f, g);
    }
    assert(left =~= right);
}

/// The first element passes a matrix that keeps it.
proof fn lemma_keeps_first(m: spec_fn(int, int) -> F, s: Seq<F>)
    requires
        keeps_first(m),
        s[0].canonical(),
    ensures
        applied(m, s)[0] == s[0],
{
    let f = |j: int| m(0, j) * s[j];
    assert forall|j: int| 0 <= j < 16 && j != 0 implies #[trigger] f(j) == F::zero_spec() by {
        assert(m(0, j) == F::zero_spec());
        field::lemma_mul_zero(s[j]);
    }
    field::lemma_mul_one(s[0]);
    lemma_total_single(16, f, 0);
}

/// The others do not see it.
proof fn lemma_keeps_apart(m: spec_fn(int, int) -> F, s: Seq<F>, t: Seq<F>, i: int)
    requires
        keeps_first(m),
        1 <= i < 16,
        forall|j: int| 1 <= j < 16 ==> #[trigger] s[j] == t[j],
    ensures
        applied(m, s)[i] == applied(m, t)[i],
{
    let f = |j: int| m(i, j) * s[j];
    let g = |j: int| m(i, j) * t[j];
    assert forall|j: int| 0 <= j < 16 implies #[trigger] f(j) == g(j) by {
        if j == 0 {
            assert(m(i, 0) == F::zero_spec());
            field::lemma_mul_zero(s[0]);
            field::lemma_mul_zero(t[0]);
        } else {
            assert(s[j] == t[j]);
        }
    }
    lemma_total_ext(16, f, g);
}

/// The state of the sparse form before partial round `r`, from that of the permutation.
proof fn lemma_partial_states(
    k: PoseidonConstants,
    partial: Seq<Seq<F>>,
    change: spec_fn(int) -> spec_fn(int, int) -> F,
    offset: spec_fn(int) -> Seq<F>,
    input: Seq<F>,
    cells: Seq<F>,
    r: nat,
)
    requires
        factorises(k, partial, change, offset),
        input.len() == 16,
        cells == poseidon::trace_cells(k, input),
        poseidon::beginning_state(k, input, 1) == state_after(
            entries(k.mds),
            round_constants(k, partial),
            input,
            4,
        ),
        r <= 20,
    ensures
        poseidon::partial_state(k, poseidon::enter_partial(k, poseidon::beginning_state(k, input, 1)), cells, r)
            == applied(
            change(r as int),
            added(state_after(entries(k.mds), round_constants(k, partial), input, 4 + r), offset(r as int)),
        ),
    decreases r,
{
    let m = entries(k.mds);
    let cs = round_constants(k, partial);
    let x = state_after(m, cs, input, 4);
    let start = poseidon::enter_partial(k, x);
    if r == 0 {
        let sums = Seq::new(16, |i: int| x[i].plus_base_spec(k.sparse_first_round@[i]));
        let shifted = added(x, offset(0));
        assert(sums =~= shifted) by {
            assert forall|i: int| 0 <= i < 16 implies #[trigger] sums[i] == shifted[i] by {
                assert(offset(0)[i] == k.sparse_first_round@[i]);
            }
        }
        lemma_mat_vec(k.sparse_m_i, sums);
        lemma_same_entries(entries(k.sparse_m_i), change(0), shifted);
    } else {
        let p: nat = (r - 1) as nat;
        let q: int = p as int;
        lemma_partial_states(k, partial, change, offset, input, cells, p);
        let old = state_after(m, cs, input, 4 + p);
        let c = partial[q];
        let d = offset(q);
        let y = poseidon::partial_state(k, start, cells, p);
        let shifted = added(old, d);
        // The cubed state of the permutation.
        let w = cubed(c, false, old);
        let rest = Seq::new(16, |i: int| d[i] - c[i]);
        assert(cs(4 + q) == c);
        let new = state_after(m, cs, input, 4 + r);
        assert(new == applied(m, w)) by {
            assert((4 + r - 1) as nat == 4 + p);
            assert(new == round(m, cs(4 + r - 1), false, old));
        }
        // The cube of the sparse form is the same.
        poseidon::lemma_partial_cells(k, start, 20);
        assert(cells[q] == poseidon::cube_spec(y[0]));
        assert(keeps_first(change(q)));
        assert(offset(q)[0] == partial[q][0]);
        field::lemma_of_val(old[0].val() + d[0].val());
        lemma_keeps_first(change(q), shifted);
        lemma_cube(old[0] + c[0]);
        assert(cells[q] == w[0]);
        // The state with the cube, from that of the permutation.
        let first = cells[q] + scalar(k, q);
        let t = y.update(0, first);
        let wr = added(w, rest);
        let u = added(applied(change(q), wr), first_only(scalar(k, q)));
        assert(t =~= u) by {
            assert forall|i: int| 0 <= i < 16 implies #[trigger] t[i] == u[i] by {
                if i == 0 {
                    field::lemma_sub_self(c[0]);
                    field::lemma_add_zero(w[0]);
                    assert(wr[0] == w[0]);
                    lemma_keeps_first(change(q), wr);
                } else {
                    assert forall|j: int| 1 <= j < 16 implies #[trigger] shifted[j] == wr[j] by {
                        lemma_move(old[j], c[j], d[j]);
                    }
                    lemma_keeps_apart(change(q), shifted, wr, i);
                    lemma_total_canonical(16, |j: int| change(q)(i, j) * wr[j]);
                    field::lemma_add_zero(applied(change(q), wr)[i]);
                }
            }
        }
        assert forall|i: int| 0 <= i < 16 implies (#[trigger] y[i]).canonical() by {
            lemma_total_canonical(16, |j: int| change(q)(i, j) * shifted[j]);
        }
        law_partial_round_is_sparse_product(k, q, y, cells[q]);
        let s = sparse_matrix(k, q);
        // The linear layer of the round.
        lemma_applied_add(change(q), w, rest);
        let (a, b, e) = (applied(change(q), w), applied(change(q), rest), first_only(scalar(k, q)));
        assert(u =~= added(a, added(b, e))) by {
            assert forall|i: int| 0 <= i < 16 implies #[trigger] u[i] == added(a, added(b, e))[i] by {
                field::lemma_add_assoc(a[i], b[i], e[i]);
            }
        }
        lemma_applied_add(s, a, added(b, e));
        assert(same_product(s, change(q), change(q + 1), m));
        lemma_same_product(s, change(q), change(q + 1), m, w);
        assert(applied(change(q + 1), offset(q + 1)) == applied(s, added(b, e)));
        lemma_applied_add(change(q + 1), new, offset(q + 1));
    }
}

/// `a + d` is `(a + c) + (d - c)`.
proof fn lemma_move(a: F, c: F, d: F)
    ensures
        a + d == (a + c) + (d - c),
{
    field::lemma_sub_is_add_neg(d, c);
    let n = c.negate_spec();
    field::lemma_add_comm(d, n);
    field::lemma_add_assoc(a, c, n + d);
    field::lemma_add_assoc(c, n, d);
    field::lemma_sub_is_add_neg(c, c);
    field::lemma_sub_self(c);
    field::lemma_of_val(0);
    // 0 + d, where d may not be canonical, is the sum that a + d takes.
    field::lemma_add_assoc(a, F::zero_spec(), d);
    assert(a + F::zero_spec() + d == a + d) by {
        field::lemma_add_comm(a, F::zero_spec());
        field::lemma_add_assoc(F::zero_spec(), a, d);
        field::lemma_of_val(a.val() + d.val());
        field::lemma_add_zero(a + d);
    }
}

proof fn lemma_same_entries(a: spec_fn(int, int) -> F, b: spec_fn(int, int) -> F, s: Seq<F>)
    requires
        forall|i: int, j: int| 0 <= i < 16 && 0 <= j < 16 ==> a(i, j) == #[trigger] b(i, j),
    ensures
        applied(a, s) == applied(b, s),
{
    let (left, right) = (applied(a, s), applied(b, s));
    assert forall|i: int| 0 <= i < 16 implies #[trigger] left[i] == right[i] by {
        let f = |j: int| a(i, j) * s[j];
        let g = |j: int| b(i, j) * s[j];
        assert forall|j: int| 0 <= j < 16 implies #[trigger] f(j) == g(j) by {
            assert(a(i, j) == b(i, j));
        }
        lemma_total_ext(16, f, g);
    }
    assert(left =~= right);
}

/// The state after the second round from the end.
proof fn lemma_ending(
    k: PoseidonConstants,
    partial: Seq<Seq<F>>,
    change: spec_fn(int) -> spec_fn(int, int) -> F,
    offset: spec_fn(int) -> Seq<F>,
    input: Seq<F>,
)
    requires
        factorises(k, partial, change, offset),
        input.len() == 16,
    ensures
        poseidon::ending_state(k, input) == state_after(
            entries(k.mds),
            round_constants(k, partial),
            input,
            26,
        ),
{
    let m = entries(k.mds);
    let cs = round_constants(k, partial);
    lemma_beginning(k, partial, input);
    let cells = poseidon::trace_cells(k, input);
    let start = poseidon::enter_partial(k, poseidon::beginning_state(k, input, 1));
    lemma_partial_states(k, partial, change, offset, input, cells, 20);
    let x = state_after(m, cs, input, 24);
    let y = poseidon::partial_state(k, start, cells, 20);
    assert(y =~= x) by {
        lemma_after_len(m, cs, input, 24);
        let z = added(x, offset(20));
        lemma_same_entries(identity(), change(20), z);
        assert forall|j: int| 0 <= j < 16 implies #[trigger] y[j] == x[j] by {
            let f = |l: int| identity()(j, l) * z[l];
            assert(offset(20)[j] == F::zero_spec());
            field::lemma_add_zero(x[j]);
            field::lemma_mul_one(x[j]);
            assert forall|l: int| 0 <= l < 16 && l != j implies #[trigger] f(l) == F::zero_spec() by {
                field::lemma_mul_zero(z[l]);
            }
            lemma_total_single(16, f, j);
        }
    }
    assert(state_after(m, cs, input, 25) == round(m, cs(24), true, x));
    assert(state_after(m, cs, input, 26) == round(m, cs(25), true, state_after(m, cs, input, 25)));
    lemma_full_round(k, k.ending@[0]@, x);
    lemma_full_round(k, k.ending@[1]@, state_after(m, cs, input, 25));
}

/// The compression is the permutation of four full, twenty partial and four full rounds, with the
/// input added to its result and the first eight elements kept, wherever the sparse constants
/// factorise the partial rounds.
pub proof fn law_compression_is_dense_permutation(
    k: PoseidonConstants,
    partial: Seq<Seq<F>>,
    change: spec_fn(int) -> spec_fn(int, int) -> F,
    offset: spec_fn(int) -> Seq<F>,
    input: Seq<F>,
    i: int,
)
    requires
        factorises(k, partial, change, offset),
        input.len() == 16,
        0 <= i < 8,
    ensures
        poseidon::compress_spec(k, input).len() == 8,
        poseidon::compress_spec(k, input)[i] == state_after(
            entries(k.mds),
            round_constants(k, partial),
            input,
            28,
        )[i] + input[i],
{
    let m = entries(k.mds);
    let cs = round_constants(k, partial);
    lemma_ending(k, partial, change, offset, input);
    assert(state_after(m, cs, input, 27) == round(m, cs(26), true, state_after(m, cs, input, 26)));
    assert(state_after(m, cs, input, 28) == round(m, cs(27), true, state_after(m, cs, input, 27)));
    lemma_full_round(k, k.ending@[2]@, state_after(m, cs, input, 26));
    lemma_full_round(k, k.ending@[3]@, state_after(m, cs, input, 27));
}

/// A row of the hash table holds the input, the states after the second and the fourth round, the cube
/// of the first element in every partial round, the state after the second round from the end, and the
/// digest, in this order.
pub proof fn law_trace_row_holds_dense_states(
    k: PoseidonConstants,
    partial: Seq<Seq<F>>,
    change: spec_fn(int) -> spec_fn(int, int) -> F,
    offset: spec_fn(int) -> Seq<F>,
    input: Seq<F>,
    i: int,
    r: int,
)
    requires
        factorises(k, partial, change, offset),
        input.len() == 16,
        0 <= i < 16,
        0 <= r < 20,
    ensures
        poseidon::trace_spec(k, input).len() == 92,
        poseidon::trace_spec(k, input)[i] == input[i],
        poseidon::trace_spec(k, input)[16 + i] == state_after(
            entries(k.mds),
            round_constants(k, partial),
            input,
            2,
        )[i],
        poseidon::trace_spec(k, input)[32 + i] == state_after(
            entries(k.mds),
            round_constants(k, partial),
            input,
            4,
        )[i],
        poseidon::trace_spec(k, input)[48 + r] == (state_after(
            entries(k.mds),
            round_constants(k, partial),
            input,
            (4 + r) as nat,
        )[0] + partial[r][0]).pow(3),
        poseidon::trace_spec(k, input)[68 + i] == state_after(
            entries(k.mds),
            round_constants(k, partial),
            input,
            26,
        )[i],
        i < 8 ==> poseidon::trace_spec(k, input)[84 + i] == state_after(
            entries(k.mds),
            round_constants(k, partial),
            input,
            28,
        )[i] + input[i],
{
    let m = entries(k.mds);
    let cs = round_constants(k, partial);
    lemma_beginning(k, partial, input);
    lemma_ending(k, partial, change, offset, input);
    let cells = poseidon::trace_cells(k, input);
    let start = poseidon::enter_partial(k, poseidon::beginning_state(k, input, 1));
    poseidon::lemma_partial_cells(k, start, 20);
    lemma_partial_states(k, partial, change, offset, input, cells, r as nat);
    let old = state_after(m, cs, input, (4 + r) as nat);
    let shifted = added(old, offset(r));
    assert(keeps_first(change(r)));
    assert(offset(r)[0] == partial[r][0]);
    field::lemma_of_val(old[0].val() + partial[r][0].val());
    lemma_keeps_first(change(r), shifted);
    lemma_cube(old[0] + partial[r][0]);
    lemma_after_len(m, cs, input, 2);
    lemma_after_len(m, cs, input, 4);
    lemma_after_len(m, cs, input, 26);
    if i < 8 {
        law_compression_is_dense_permutation(k, partial, change, offset, input, i);
    }
}

proof fn lemma_beginning(k: PoseidonConstants, partial: Seq<Seq<F>>, input: Seq<F>)
    ensures
        poseidon::beginning_state(k, input, 0) == state_after(
            entries(k.mds),
            round_constants(k, partial),
            input,
            2,
        ),
        poseidon::beginning_state(k, input, 1) == state_after(
            entries(k.mds),
            round_constants(k, partial),
            input,
            4,
        ),
{
    let m = entries(k.mds);
    let cs = round_constants(k, partial);
    assert(state_after(m, cs, input, 0) == input);
    assert(state_after(m, cs, input, 1) == round(m, cs(0), true, input));
    assert(state_after(m, cs, input, 2) == round(m, cs(1), true, state_after(m, cs, input, 1)));
    assert(state_after(m, cs, input, 3) == round(m, cs(2), true, state_after(m, cs, input, 2)));
    assert(state_after(m, cs, input, 4) == round(m, cs(3), true, state_after(m, cs, input, 3)));
    lemma_full_round(k, k.initial@[0]@, input);
    lemma_full_round(k, k.initial@[1]@, state_after(m, cs, input, 1));
    lemma_full_round(k, k.initial@[2]@, state_after(m, cs, input, 2));
    lemma_full_round(k, k.initial@[3]@, state_after(m, cs, input, 3));
}

/// States after a round have sixteen canonical elements.
proof fn lemma_after_len(m: spec_fn(int, int) -> F, c: spec_fn(int) -> Seq<F>, s: Seq<F>, n: nat)
    requires
        n > 0,
    ensures
        state_after(m, c, s, n).len() == 16,
        forall|i: int| 0 <= i < 16 ==> (#[trigger] state_after(m, c, s, n)[i]).canonical(),
{
    let last = state_after(m, c, s, (n - 1) as nat);
    let full = n - 1 < 4 || n - 1 >= 24;
    let t = cubed(c(n - 1), full, last);
    assert(state_after(m, c, s, n) == applied(m, t));
    assert forall|i: int| 0 <= i < 16 implies (#[trigger] state_after(m, c, s, n)[i]).canonical() by {
        lemma_total_canonical(16, |j: int| m(i, j) * t[j]);
    }
}

} // verus!
