//! Sparse columns of coefficients.
use crate::ext;
use crate::ext::EF;
use crate::sums;
use vstd::prelude::*;

verus! {

/// A coefficient at a row.
#[derive(Clone, Copy, Debug, PartialEq, Eq, Structural)]
pub struct SparseCoeff {
    pub row: usize,
    pub coeff: EF,
}

/// The coefficient of a column at a row: the sum of its terms there.
pub open spec fn value_at(column: Seq<SparseCoeff>, row: int) -> EF {
    sums::sum(
        column.len(),
        |i: int|
            if column[i].row == row {
                column[i].coeff
            } else {
                EF::zero_spec()
            },
    )
}

/// Whether a column has a term at a row.
pub open spec fn listed(column: Seq<SparseCoeff>, row: int) -> bool {
    exists|i: int| 0 <= i < column.len() && #[trigger] column[i].row == row
}

/// Whether the rows of a column strictly increase.
pub open spec fn strictly_sorted(column: Seq<SparseCoeff>) -> bool {
    forall|i: int, j: int| 0 <= i < j < column.len() ==> #[trigger] column[i].row < #[trigger] column[j].row
}

/// Whether the rows of a column do not decrease.
pub open spec fn sorted(column: Seq<SparseCoeff>) -> bool {
    forall|i: int, j: int| 0 <= i <= j < column.len() ==> #[trigger] column[i].row <= #[trigger] column[j].row
}

/// Whether all rows of a column are below `n`.
pub open spec fn rows_below(column: Seq<SparseCoeff>, n: int) -> bool {
    forall|i: int| 0 <= i < column.len() ==> (#[trigger] column[i]).row < n
}

/// Whether no coefficient of a column is zero.
pub open spec fn no_zeros(column: Seq<SparseCoeff>) -> bool {
    forall|i: int| 0 <= i < column.len() ==> (#[trigger] column[i]).coeff != EF::zero_spec()
}

/// Whether a column lists, in order and without zeros, the coefficients `g` of the rows below `n`.
pub open spec fn lists(column: Seq<SparseCoeff>, n: int, g: spec_fn(int) -> EF) -> bool {
    &&& strictly_sorted(column)
    &&& rows_below(column, n)
    &&& no_zeros(column)
    &&& forall|row: int| 0 <= row < n ==> #[trigger] value_at(column, row) == g(row)
}

/// The value after one more term.
pub proof fn lemma_value_push(column: Seq<SparseCoeff>, term: SparseCoeff, row: int)
    ensures
        value_at(column.push(term), row) == value_at(column, row) + (if term.row == row {
            term.coeff
        } else {
            EF::zero_spec()
        }),
        term.row != row ==> value_at(column.push(term), row) == value_at(column, row),
{
    let z = EF::zero_spec();
    let next = column.push(term);
    let f = |i: int| if column[i].row == row { column[i].coeff } else { z };
    let g = |i: int| if next[i].row == row { next[i].coeff } else { z };
    sums::lemma_sum_ext(column.len(), f, g);
    assert(sums::sum(next.len(), g) == sums::sum(column.len(), g) + g(column.len() as int));
    sums::lemma_sum_canonical(column.len(), f);
    ext::lemma_add_zero(sums::sum(column.len(), f));
}

/// The value at a row that is not listed is zero.
pub proof fn lemma_value_unlisted(column: Seq<SparseCoeff>, row: int)
    requires
        !listed(column, row),
    ensures
        value_at(column, row) == EF::zero_spec(),
{
    let z = EF::zero_spec();
    let f = |i: int| if column[i].row == row { column[i].coeff } else { z };
    assert forall|i: int| 0 <= i < column.len() implies #[trigger] f(i) == z by {
        assert(column[i].row != row);
    }
    sums::lemma_sum_zero(column.len(), f);
}

/// The sum of the terms of a column against `v` is the sum of its values against `v`.
pub proof fn lemma_column_sum(column: Seq<SparseCoeff>, n: nat, v: spec_fn(int) -> EF)
    requires
        rows_below(column, n as int),
    ensures
        sums::sum(column.len(), |i: int| column[i].coeff * v(column[i].row as int)) == sums::sum(
            n,
            |row: int| value_at(column, row) * v(row),
        ),
{
    let z = EF::zero_spec();
    let place = |i: int| column[i].row as int;
    let w = |i: int| column[i].coeff;
    assert forall|i: int| 0 <= i < column.len() implies #[trigger] place(i) < n by {
        assert(column[i].row < n);
    }
    sums::lemma_sum_gather(column.len(), place, w, n, v);
    let lhs = |i: int| column[i].coeff * v(column[i].row as int);
    let rhs = |i: int| if place(i) >= 0 { w(i) * v(place(i)) } else { z };
    sums::lemma_sum_ext(column.len(), rhs, lhs);
    let a = |y: int| sums::sum(column.len(), |i: int| if place(i) == y { w(i) } else { z }) * v(y);
    let b = |row: int| value_at(column, row) * v(row);
    assert forall|y: int| 0 <= y < n implies #[trigger] a(y) == b(y) by {
        sums::lemma_sum_ext(
            column.len(),
            |i: int| if place(i) == y { w(i) } else { z },
            |i: int| if column[i].row == y { column[i].coeff } else { z },
        );
    }
    sums::lemma_sum_ext(n, a, b);
}

/// The column with a term added unless its coefficient is zero.
pub open spec fn with_term(column: Seq<SparseCoeff>, row: usize, coeff: EF) -> Seq<SparseCoeff> {
    if coeff != EF::zero_spec() {
        column.push(SparseCoeff { row, coeff })
    } else {
        column
    }
}

/// Adds a term unless its coefficient is zero.
pub fn push_term(column: &mut Vec<SparseCoeff>, row: usize, coeff: EF)
    ensures
        final(column)@ == with_term(old(column)@, row, coeff),
{
    if coeff != EF::zero() {
        column.push(SparseCoeff { row, coeff });
    }
}

/// Whether the rows of a column strictly increase.
pub fn is_strictly_sorted_sparse(column: &Vec<SparseCoeff>) -> (r: bool)
    ensures
        r == strictly_sorted(column@),
{
    let n: usize = column.len();
    let mut i: usize = 1;
    while i < n
        invariant
            n == column@.len(),
            1 <= i,
            n == 0 || i <= n,
            forall|a: int, b: int|
                0 <= a < b < i && b < n ==> #[trigger] column@[a].row < #[trigger] column@[b].row,
        decreases n - i,
    {
        if !(column[i - 1].row < column[i].row) {
            assert(column@[i - 1].row >= column@[i as int].row);
            return false;
        }
        assert forall|a: int, b: int| 0 <= a < b < i + 1 && b < n implies #[trigger] column@[a].row
            < #[trigger] column@[b].row by {
            if b == i && a < i - 1 {
                assert(column@[a].row < column@[i - 1].row);
            }
        }
        i = i + 1;
    }
    true
}

/// The dense values that a list of terms adds up to.
fn gather(terms: &Vec<SparseCoeff>, n: usize) -> (r: Vec<EF>)
    requires
        rows_below(terms@, n as int),
    ensures
        r@.len() == n,
        forall|row: int| 0 <= row < n ==> #[trigger] r@[row] == value_at(terms@, row),
{
    let mut out: Vec<EF> = Vec::new();
    let mut i: usize = 0;
    while i < n
        invariant
            i <= n,
            out@.len() == i,
            forall|row: int| 0 <= row < i ==> #[trigger] out@[row] == EF::zero_spec(),
        decreases n - i,
    {
        out.push(EF::zero());
        i = i + 1;
    }
    let mut i: usize = 0;
    assert(terms@.subrange(0, 0) =~= Seq::<SparseCoeff>::empty());
    while i < terms.len()
        invariant
            i <= terms@.len(),
            rows_below(terms@, n as int),
            out@.len() == n,
            forall|row: int| 0 <= row < n ==> #[trigger] out@[row] == value_at(terms@.subrange(0, i as int), row),
        decreases terms@.len() - i,
    {
        let term = terms[i];
        let ghost before = out@;
        out.set(term.row, out[term.row].add(term.coeff));
        proof {
            let head = terms@.subrange(0, i as int);
            assert(terms@.subrange(0, i + 1) =~= head.push(term));
            assert forall|row: int| 0 <= row < n implies #[trigger] out@[row] == value_at(
                terms@.subrange(0, i + 1),
                row,
            ) by {
                lemma_value_push(head, term, row);
                assert(before[row] == value_at(head, row));
            }
        }
        i = i + 1;
    }
    assert(terms@.subrange(0, terms@.len() as int) =~= terms@);
    out
}

/// Puts the terms of a column in the order of their rows, adds up those of the same row, and leaves
/// out zeros.
pub fn merge_sparse_coefficients(column: &mut Vec<SparseCoeff>, n: usize)
    requires
        rows_below(old(column)@, n as int),
    ensures
        lists(final(column)@, n as int, |row: int| value_at(old(column)@, row)),
{
    let dense = gather(column, n);
    let ghost terms = column@;
    crate::ntt::known_canonical(&dense);
    *column = from_dense(&dense);
    assert(lists(column@, n as int, |row: int| value_at(terms, row)));
}

/// The sparse column of dense values.
pub fn from_dense(dense: &Vec<EF>) -> (r: Vec<SparseCoeff>)
    requires
        forall|i: int| 0 <= i < dense@.len() ==> (#[trigger] dense@[i]).canonical(),
    ensures
        lists(r@, dense@.len() as int, |row: int| dense@[row]),
{
    let n: usize = dense.len();
    let mut out: Vec<SparseCoeff> = Vec::new();
    let mut row: usize = 0;
    while row < n
        invariant
            row <= n,
            n == dense@.len(),
            forall|i: int| 0 <= i < dense@.len() ==> (#[trigger] dense@[i]).canonical(),
            strictly_sorted(out@),
            rows_below(out@, row as int),
            no_zeros(out@),
            forall|r: int| 0 <= r < row ==> #[trigger] value_at(out@, r) == dense@[r],
        decreases n - row,
    {
        let ghost before = out@;
        push_term(&mut out, row, dense[row]);
        proof {
            lemma_push_next(before, row, dense@[row as int]);
            assert forall|r: int| 0 <= r < row + 1 implies #[trigger] value_at(out@, r) == dense@[r] by {
                if r < row {
                    assert(value_at(before, r) == dense@[r]);
                    lemma_value_push(before, SparseCoeff { row, coeff: dense@[row as int] }, r);
                }
            }
        }
        row = row + 1;
    }
    out
}

/// A term at a row above all those listed so far.
pub proof fn lemma_push_next(column: Seq<SparseCoeff>, row: usize, coeff: EF)
    requires
        strictly_sorted(column),
        rows_below(column, row as int),
        no_zeros(column),
        coeff.canonical(),
    ensures
        strictly_sorted(with_term(column, row, coeff)),
        rows_below(with_term(column, row, coeff), row + 1),
        no_zeros(with_term(column, row, coeff)),
        value_at(with_term(column, row, coeff), row as int) == coeff,
        forall|r: int|
            r != row ==> #[trigger] value_at(with_term(column, row, coeff), r) == value_at(column, r),
{
    let term = SparseCoeff { row, coeff };
    lemma_value_push(column, term, row as int);
    assert(!listed(column, row as int));
    lemma_value_unlisted(column, row as int);
    ext::lemma_add_zero(coeff);
    assert forall|r: int| r != row implies #[trigger] value_at(column.push(term), r) == value_at(column, r) by {
        lemma_value_push(column, term, r);
    }
}

/// Multiplies every coefficient of a column.
pub fn scale_column(column: &mut Vec<SparseCoeff>, k: EF)
    ensures
        final(column)@.len() == old(column)@.len(),
        forall|i: int|
            0 <= i < old(column)@.len() ==> (#[trigger] final(column)@[i]).row == old(column)@[i].row
                && final(column)@[i].coeff == old(column)@[i].coeff * k,
        forall|row: int| #[trigger] value_at(final(column)@, row) == value_at(old(column)@, row) * k,
{
    let ghost before = column@;
    let n: usize = column.len();
    let mut i: usize = 0;
    while i < n
        invariant
            i <= n,
            n == before.len(),
            column@.len() == n,
            forall|m: int| i <= m < n ==> #[trigger] column@[m] == before[m],
            forall|m: int|
                0 <= m < i ==> (#[trigger] column@[m]).row == before[m].row && column@[m].coeff == before[m].coeff * k,
        decreases n - i,
    {
        let term = column[i];
        column.set(i, SparseCoeff { row: term.row, coeff: term.coeff.mul(k) });
        i = i + 1;
    }
    proof {
        let after = column@;
        let z = EF::zero_spec();
        assert forall|row: int| #[trigger] value_at(after, row) == value_at(before, row) * k by {
            let f = |m: int| if before[m].row == row { before[m].coeff } else { z };
            let g = |m: int| if after[m].row == row { after[m].coeff } else { z };
            sums::lemma_sum_mul_right(n as nat, f, k);
            assert forall|m: int| 0 <= m < n implies #[trigger] g(m) == (|i: int| f(i) * k)(m) by {
                assert(after[m].row == before[m].row);
                ext::lemma_mul_zero(k);
            }
            sums::lemma_sum_ext(n as nat, g, |i: int| f(i) * k);
        }
    }
}

/// What a row holds after two columns have been merged.
spec fn merged_row(a: Seq<SparseCoeff>, b: Seq<SparseCoeff>, out: Seq<SparseCoeff>, row: int) -> bool {
    &&& value_at(out, row) == value_at(a, row) + value_at(b, row)
    &&& listed(out, row) <==> ((listed(a, row) || listed(b, row)) && !(listed(a, row) && listed(b, row) && value_at(
        a,
        row,
    ) + value_at(b, row) == EF::zero_spec()))
}

proof fn lemma_listed_push(column: Seq<SparseCoeff>, term: SparseCoeff, row: int)
    ensures
        listed(column.push(term), row) <==> (listed(column, row) || term.row == row),
{
    let next = column.push(term);
    if listed(column, row) {
        let i = choose|i: int| 0 <= i < column.len() && #[trigger] column[i].row == row;
        assert(next[i].row == row);
    }
    if term.row == row {
        assert(next[column.len() as int].row == row);
    }
    if listed(next, row) {
        let i = choose|i: int| 0 <= i < next.len() && #[trigger] next[i].row == row;
        if i < column.len() {
            assert(column[i].row == row);
        }
    }
}

/// One term taken from the first column.
proof fn lemma_merge_left(a: Seq<SparseCoeff>, b: Seq<SparseCoeff>, out: Seq<SparseCoeff>, term: SparseCoeff)
    requires
        forall|row: int| #[trigger] merged_row(a, b, out, row),
        !listed(b, term.row as int),
        !listed(a, term.row as int),
        term.coeff.canonical(),
    ensures
        forall|row: int| #[trigger] merged_row(a.push(term), b, out.push(term), row),
{
    assert forall|row: int| #[trigger] merged_row(a.push(term), b, out.push(term), row) by {
        assert(merged_row(a, b, out, row));
        lemma_value_push(a, term, row);
        lemma_value_push(out, term, row);
        lemma_listed_push(a, term, row);
        lemma_listed_push(out, term, row);
        if row == term.row {
            let x = value_at(a, row);
            let y = value_at(b, row);
            lemma_value_unlisted(a, row);
            lemma_value_unlisted(b, row);
            ext::lemma_constants_canonical();
            ext::lemma_add_zero(EF::zero_spec());
            ext::lemma_add_zero(term.coeff);
        }
    }
}

proof fn lemma_merge_symmetric(a: Seq<SparseCoeff>, b: Seq<SparseCoeff>, out: Seq<SparseCoeff>)
    requires
        forall|row: int| #[trigger] merged_row(a, b, out, row),
    ensures
        forall|row: int| #[trigger] merged_row(b, a, out, row),
{
    assert forall|row: int| #[trigger] merged_row(b, a, out, row) by {
        assert(merged_row(a, b, out, row));
        ext::lemma_add_comm(value_at(a, row), value_at(b, row));
    }
}

/// One term taken from each column, at the same row.
proof fn lemma_merge_both(
    a: Seq<SparseCoeff>,
    b: Seq<SparseCoeff>,
    out: Seq<SparseCoeff>,
    x: SparseCoeff,
    y: SparseCoeff,
)
    requires
        forall|row: int| #[trigger] merged_row(a, b, out, row),
        x.row == y.row,
        !listed(a, x.row as int),
        !listed(b, x.row as int),
        x.coeff.canonical(),
        y.coeff.canonical(),
    ensures
        forall|row: int|
            #[trigger] merged_row(a.push(x), b.push(y), with_term(out, x.row, x.coeff + y.coeff), row),
{
    let c = x.coeff + y.coeff;
    let next = with_term(out, x.row, c);
    let term = SparseCoeff { row: x.row, coeff: c };
    let z = EF::zero_spec();
    assert forall|row: int| #[trigger] merged_row(a.push(x), b.push(y), next, row) by {
        assert(merged_row(a, b, out, row));
        lemma_value_push(a, x, row);
        lemma_value_push(b, y, row);
        lemma_value_push(out, term, row);
        lemma_listed_push(a, x, row);
        lemma_listed_push(b, y, row);
        lemma_listed_push(out, term, row);
        if row == x.row {
            lemma_value_unlisted(a, row);
            lemma_value_unlisted(b, row);
            ext::lemma_constants_canonical();
            ext::lemma_add_zero(z);
            ext::lemma_add_zero(x.coeff);
            ext::lemma_add_zero(y.coeff);
            ext::lemma_add_canonical(x.coeff, y.coeff);
            ext::lemma_add_zero(c);
        }
    }
}

proof fn lemma_below_unlisted(column: Seq<SparseCoeff>, row: int)
    requires
        rows_below(column, row),
    ensures
        !listed(column, row),
{
    if listed(column, row) {
        let m = choose|m: int| 0 <= m < column.len() && #[trigger] column[m].row == row;
        assert(column[m].row < row);
    }
}

/// Adds the column `source` to the column `target`; both in the order of their rows.
pub fn merge_sorted_sparse_columns(target: &mut Vec<SparseCoeff>, source: &Vec<SparseCoeff>)
    requires
        strictly_sorted(old(target)@),
        strictly_sorted(source@),
    ensures
        strictly_sorted(final(target)@),
        forall|row: int|
            #[trigger] value_at(final(target)@, row) == value_at(old(target)@, row) + value_at(source@, row),
        forall|row: int|
            #[trigger] listed(final(target)@, row) <==> ((listed(old(target)@, row) || listed(source@, row)) && !(
            listed(old(target)@, row) && listed(source@, row) && value_at(old(target)@, row) + value_at(source@, row)
                == EF::zero_spec())),
{
    let ghost a = target@;
    let ghost b = source@;
    let n: usize = target.len();
    let k: usize = source.len();
    let mut merged: Vec<SparseCoeff> = Vec::new();
    let mut i: usize = 0;
    let mut j: usize = 0;
    proof {
        let e = Seq::<SparseCoeff>::empty();
        assert(a.subrange(0, 0) =~= e);
        assert(b.subrange(0, 0) =~= e);
        assert forall|row: int| #[trigger] merged_row(a.subrange(0, 0), b.subrange(0, 0), merged@, row) by {
            lemma_value_unlisted(e, row);
            ext::lemma_constants_canonical();
            ext::lemma_add_zero(EF::zero_spec());
            assert(merged@ =~= e);
        }
    }
    while i < n || j < k
        invariant
            target@ == a,
            source@ == b,
            n == a.len(),
            k == b.len(),
            i <= n,
            j <= k,
            strictly_sorted(a),
            strictly_sorted(b),
            strictly_sorted(merged@),
            i < n ==> rows_below(merged@, a[i as int].row as int),
            j < k ==> rows_below(merged@, b[j as int].row as int),
            i < n ==> rows_below(b.subrange(0, j as int), a[i as int].row as int),
            j < k ==> rows_below(a.subrange(0, i as int), b[j as int].row as int),
            i < n ==> rows_below(a.subrange(0, i as int), a[i as int].row as int),
            j < k ==> rows_below(b.subrange(0, j as int), b[j as int].row as int),
            forall|row: int|
                #[trigger] merged_row(a.subrange(0, i as int), b.subrange(0, j as int), merged@, row),
        decreases n - i + k - j,
    {
        let ghost pa = a.subrange(0, i as int);
        let ghost pb = b.subrange(0, j as int);
        let ghost before = merged@;
        if j >= k || (i < n && target[i].row < source[j].row) {
            let term = target[i];
            term.coeff.assert_canonical();
            merged.push(term);
            proof {
                lemma_below_unlisted(pa, term.row as int);
                lemma_below_unlisted(pb, term.row as int);
                lemma_merge_left(pa, pb, before, term);
                assert(a.subrange(0, i + 1) =~= pa.push(term));
            }
            i = i + 1;
        } else if i >= n || source[j].row < target[i].row {
            let term = source[j];
            term.coeff.assert_canonical();
            merged.push(term);
            proof {
                lemma_below_unlisted(pa, term.row as int);
                lemma_below_unlisted(pb, term.row as int);
                lemma_merge_symmetric(pa, pb, before);
                lemma_merge_left(pb, pa, before, term);
                lemma_merge_symmetric(pb.push(term), pa, before.push(term));
                assert(b.subrange(0, j + 1) =~= pb.push(term));
            }
            j = j + 1;
        } else {
            let x = target[i];
            let y = source[j];
            x.coeff.assert_canonical();
            y.coeff.assert_canonical();
            push_term(&mut merged, x.row, x.coeff.add(y.coeff));
            proof {
                lemma_below_unlisted(pa, x.row as int);
                lemma_below_unlisted(pb, x.row as int);
                lemma_merge_both(pa, pb, before, x, y);
                assert(a.subrange(0, i + 1) =~= pa.push(x));
                assert(b.subrange(0, j + 1) =~= pb.push(y));
            }
            i = i + 1;
            j = j + 1;
        }
    }
    proof {
        assert(a.subrange(0, n as int) =~= a);
        assert(b.subrange(0, k as int) =~= b);
        assert forall|row: int| #[trigger] value_at(merged@, row) == value_at(a, row) + value_at(b, row) by {
            assert(merged_row(a, b, merged@, row));
        }
        assert forall|row: int|
            #[trigger] listed(merged@, row) <==> ((listed(a, row) || listed(b, row)) && !(listed(a, row) && listed(
                b,
                row,
            ) && value_at(a, row) + value_at(b, row) == EF::zero_spec())) by {
            assert(merged_row(a, b, merged@, row));
        }
    }
    *target = merged;
}

/// The values of two lists of terms one after the other.
pub proof fn lemma_value_concat(a: Seq<SparseCoeff>, b: Seq<SparseCoeff>, row: int)
    ensures
        value_at(a + b, row) == value_at(a, row) + value_at(b, row),
{
    let z = EF::zero_spec();
    let both = a + b;
    let f = |m: int| if both[m].row == row { both[m].coeff } else { z };
    let g = |m: int| if a[m].row == row { a[m].coeff } else { z };
    let h = |m: int| if b[m].row == row { b[m].coeff } else { z };
    sums::lemma_sum_split(a.len(), b.len(), f);
    sums::lemma_sum_ext(a.len(), f, g);
    sums::lemma_sum_ext(b.len(), |m: int| f(a.len() + m), h);
}

/// The value at `parent` of a column with its lowest variable set to `challenge`.
pub open spec fn folded_value(column: Seq<SparseCoeff>, challenge: EF, parent: int) -> EF {
    value_at(column, 2 * parent) + challenge * (value_at(column, 2 * parent + 1) - value_at(column, 2 * parent))
}

/// Setting a variable goes term by term.
pub proof fn lemma_folded_concat(a: Seq<SparseCoeff>, b: Seq<SparseCoeff>, challenge: EF, parent: int)
    ensures
        folded_value(a + b, challenge, parent) == folded_value(a, challenge, parent) + folded_value(
            b,
            challenge,
            parent,
        ),
{
    let a0 = value_at(a, 2 * parent);
    let a1 = value_at(a, 2 * parent + 1);
    let b0 = value_at(b, 2 * parent);
    let b1 = value_at(b, 2 * parent + 1);
    lemma_value_concat(a, b, 2 * parent);
    lemma_value_concat(a, b, 2 * parent + 1);
    ext::lemma_sub_exchange(a1, b1, a0, b0);
    ext::lemma_mul_distrib_right(challenge, a1 - a0, b1 - b0);
    ext::lemma_add_exchange(a0, b0, challenge * (a1 - a0), challenge * (b1 - b0));
}

pub proof fn lemma_folded_unlisted(column: Seq<SparseCoeff>, challenge: EF, parent: int)
    requires
        !listed(column, 2 * parent),
        !listed(column, 2 * parent + 1),
    ensures
        folded_value(column, challenge, parent) == EF::zero_spec(),
{
    let z = EF::zero_spec();
    lemma_value_unlisted(column, 2 * parent);
    lemma_value_unlisted(column, 2 * parent + 1);
    ext::lemma_sub_self(z);
    ext::lemma_mul_zero(challenge);
    ext::lemma_constants_canonical();
    ext::lemma_add_zero(z);
}

/// Whether all terms stand at the two rows of `parent`.
pub open spec fn has_parent(terms: Seq<SparseCoeff>, parent: int) -> bool {
    forall|m: int| 0 <= m < terms.len() ==> (#[trigger] terms[m]).row as int / 2 == parent
}

/// The end of the run of terms that share the parent of the term at `start`, and the values of these
/// terms at the two rows of that parent.
pub fn group_at(column: &Vec<SparseCoeff>, start: usize) -> (r: (usize, EF, EF))
    requires
        start < column@.len(),
    ensures
        start < r.0 <= column@.len(),
        has_parent(column@.subrange(start as int, r.0 as int), column@[start as int].row as int / 2),
        r.0 < column@.len() ==> column@[r.0 as int].row as int / 2 != column@[start as int].row as int / 2,
        r.1 == value_at(
            column@.subrange(start as int, r.0 as int),
            2 * (column@[start as int].row as int / 2),
        ),
        r.2 == value_at(
            column@.subrange(start as int, r.0 as int),
            2 * (column@[start as int].row as int / 2) + 1,
        ),
{
    let n: usize = column.len();
    let parent: usize = column[start].row / 2;
    let mut c0 = EF::zero();
    let mut c1 = EF::zero();
    let ghost col = column@;
    proof {
        let head = col.subrange(start as int, start as int);
        lemma_value_unlisted(head, 2 * parent as int);
        lemma_value_unlisted(head, 2 * parent as int + 1);
    }
    let mut idx: usize = start;
    while idx < n && column[idx].row / 2 == parent
        invariant
            column@ == col,
            n == col.len(),
            start <= idx <= n,
            start < n,
            parent == col[start as int].row / 2,
            has_parent(col.subrange(start as int, idx as int), parent as int),
            c0 == value_at(col.subrange(start as int, idx as int), 2 * parent as int),
            c1 == value_at(col.subrange(start as int, idx as int), 2 * parent as int + 1),
        decreases n - idx,
    {
        let term = column[idx];
        term.coeff.assert_canonical();
        proof {
            let head = col.subrange(start as int, idx as int);
            let next = col.subrange(start as int, idx + 1);
            assert(next =~= head.push(term));
            lemma_value_push(head, term, 2 * parent as int);
            lemma_value_push(head, term, 2 * parent as int + 1);
            assert forall|m: int| 0 <= m < next.len() implies (#[trigger] next[m]).row as int / 2 == parent by {
                if m < head.len() {
                    assert(head[m].row as int / 2 == parent);
                }
            }
        }
        if term.row % 2 == 0 {
            c0 = c0.add(term.coeff);
        } else {
            c1 = c1.add(term.coeff);
        }
        idx = idx + 1;
    }
    (idx, c0, c1)
}

/// Terms of one parent are listed nowhere else.
pub proof fn lemma_group_elsewhere(terms: Seq<SparseCoeff>, parent: int, p: int)
    requires
        has_parent(terms, parent),
        p != parent,
    ensures
        !listed(terms, 2 * p),
        !listed(terms, 2 * p + 1),
{
    if listed(terms, 2 * p) {
        let m = choose|m: int| 0 <= m < terms.len() && #[trigger] terms[m].row == 2 * p;
        assert(terms[m].row as int / 2 == parent);
    }
    if listed(terms, 2 * p + 1) {
        let m = choose|m: int| 0 <= m < terms.len() && #[trigger] terms[m].row == 2 * p + 1;
        assert(terms[m].row as int / 2 == parent);
    }
}

/// Sets the lowest variable of a column to `challenge`.
pub fn fold_sparse_column(column: &mut Vec<SparseCoeff>, challenge: EF)
    ensures
        no_zeros(final(column)@),
        sorted(old(column)@) ==> strictly_sorted(final(column)@),
        forall|parent: int|
            #[trigger] value_at(final(column)@, parent) == folded_value(old(column)@, challenge, parent),
        forall|half: int| rows_below(old(column)@, 2 * half) ==> #[trigger] rows_below(final(column)@, half),
{
    let ghost col = column@;
    let n: usize = column.len();
    let mut out: Vec<SparseCoeff> = Vec::new();
    let mut idx: usize = 0;
    proof {
        assert(col.subrange(0, 0) =~= Seq::<SparseCoeff>::empty());
        assert forall|p: int| #[trigger] value_at(out@, p) == folded_value(col.subrange(0, 0), challenge, p) by {
            lemma_value_unlisted(out@, p);
            lemma_folded_unlisted(col.subrange(0, 0), challenge, p);
        }
    }
    while idx < n
        invariant
            column@ == col,
            n == col.len(),
            idx <= n,
            no_zeros(out@),
            sorted(col) ==> strictly_sorted(out@),
            sorted(col) && idx < n ==> rows_below(out@, col[idx as int].row as int / 2),
            forall|half: int| rows_below(col, 2 * half) ==> #[trigger] rows_below(out@, half),
            forall|p: int|
                #[trigger] value_at(out@, p) == folded_value(col.subrange(0, idx as int), challenge, p),
        decreases n - idx,
    {
        let parent: usize = column[idx].row / 2;
        let ghost start = idx as int;
        let (end, c0, c1) = group_at(column, idx);
        let coeff = c0.add(challenge.mul(c1.sub(c0)));
        coeff.assert_canonical();
        let ghost before = out@;
        push_term(&mut out, parent, coeff);
        idx = end;
        proof {
            let head = col.subrange(0, start);
            let group = col.subrange(start, end as int);
            let next = col.subrange(0, end as int);
            assert(next =~= head + group);
            assert(coeff == folded_value(group, challenge, parent as int));
            assert forall|p: int| #[trigger] value_at(out@, p) == folded_value(next, challenge, p) by {
                lemma_folded_concat(head, group, challenge, p);
                assert(value_at(before, p) == folded_value(head, challenge, p));
                let f = folded_value(head, challenge, p);
                ext::lemma_add_canonical(
                    value_at(head, 2 * p),
                    challenge * (value_at(head, 2 * p + 1) - value_at(head, 2 * p)),
                );
                ext::lemma_add_zero(f);
                if p != parent {
                    lemma_group_elsewhere(group, parent as int, p);
                    lemma_folded_unlisted(group, challenge, p);
                }
                if coeff != EF::zero_spec() {
                    lemma_value_push(before, SparseCoeff { row: parent, coeff }, p);
                }
            }
            assert forall|half: int| rows_below(col, 2 * half) implies #[trigger] rows_below(out@, half) by {
                assert(col[start].row < 2 * half);
                assert(rows_below(before, half));
            }
            if sorted(col) {
                lemma_push_next(before, parent, coeff);
                if idx < n {
                    assert(col[start].row <= col[idx as int].row);
                    assert(parent < col[idx as int].row as int / 2);
                    assert forall|m: int| 0 <= m < out@.len() implies (#[trigger] out@[m]).row < col[idx as int].row
                        as int / 2 by {
                        if m < before.len() {
                            assert(before[m].row < parent);
                        }
                    }
                }
            }
        }
    }
    assert(col.subrange(0, n as int) =~= col);
    *column = out;
}

} // verus!
