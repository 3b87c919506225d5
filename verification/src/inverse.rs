//! Inverses in the extension field, by elimination on the matrix of multiplication.
use crate::ext;
use crate::ext::EF;
use crate::field;
use crate::frobenius;
use crate::field::F;
use vstd::prelude::*;

verus! {

/// `row[0] * x[0] + ... + row[n - 1] * x[n - 1]`.
spec fn dot(row: Seq<F>, x: Seq<F>, n: nat) -> F
    decreases n,
{
    if n == 0 {
        F::zero_spec()
    } else {
        dot(row, x, (n - 1) as nat) + row[n - 1] * x[n - 1]
    }
}

proof fn lemma_dot_canonical(row: Seq<F>, x: Seq<F>, n: nat)
    ensures
        dot(row, x, n).canonical(),
{
    field::lemma_of_val(0);
    if n > 0 {
        field::lemma_of_val(dot(row, x, (n - 1) as nat).val() + (row[n - 1] * x[n - 1]).val());
    }
}

/// Whether every row vanishes on `x`.
spec fn vanishes(m: Seq<[F; 6]>, x: Seq<F>) -> bool {
    forall|r: int| 0 <= r < 5 ==> #[trigger] dot(m[r]@, x, 6) == F::zero_spec()
}

/// Whether whatever the rows of `m` vanish on, those of `m0` vanish on.
spec fn implies_rows(m: Seq<[F; 6]>, m0: Seq<[F; 6]>) -> bool {
    forall|x: Seq<F>| #[trigger] vanishes(m, x) ==> vanishes(m0, x)
}

proof fn lemma_dot_scale(row: Seq<F>, scaled: Seq<F>, k: F, x: Seq<F>, n: nat)
    requires
        forall|j: int| 0 <= j < n ==> #[trigger] scaled[j] == row[j] * k,
    ensures
        dot(scaled, x, n) == dot(row, x, n) * k,
    decreases n,
{
    if n == 0 {
        field::lemma_mul_zero(k);
    } else {
        lemma_dot_scale(row, scaled, k, x, (n - 1) as nat);
        let a = row[n - 1];
        let b = x[n - 1];
        assert(scaled[n - 1] == a * k);
        field::lemma_mul_assoc(a, k, b);
        field::lemma_mul_comm(k, b);
        field::lemma_mul_assoc(a, b, k);
        field::lemma_mul_distrib(k, dot(row, x, (n - 1) as nat), a * b);
    }
}

proof fn lemma_dot_sub(row: Seq<F>, pivot: Seq<F>, next: Seq<F>, k: F, x: Seq<F>, n: nat)
    requires
        forall|j: int| 0 <= j < n ==> #[trigger] next[j] == row[j] - pivot[j] * k,
    ensures
        dot(next, x, n) == dot(row, x, n) - dot(pivot, x, n) * k,
    decreases n,
{
    if n == 0 {
        field::lemma_mul_zero(k);
        field::lemma_sub_self(F::zero_spec());
    } else {
        let m: nat = (n - 1) as nat;
        lemma_dot_sub(row, pivot, next, k, x, m);
        let a = row[n - 1];
        let p = pivot[n - 1];
        let b = x[n - 1];
        assert(next[n - 1] == a - p * k);
        field::lemma_mul_distrib_sub_left(a, p * k, b);
        field::lemma_mul_assoc(p, k, b);
        field::lemma_mul_comm(k, b);
        field::lemma_mul_assoc(p, b, k);
        field::lemma_sub_exchange(dot(row, x, m), a * b, dot(pivot, x, m) * k, p * b * k);
        field::lemma_mul_distrib(k, dot(pivot, x, m), p * b);
    }
}

/// A sum in which at most the terms at `i` and `j` are not zero.
proof fn lemma_dot_two(row: Seq<F>, x: Seq<F>, n: nat, i: int, j: int)
    requires
        0 <= i < j,
        forall|t: int| 0 <= t < n && t != i && t != j ==> row[t] * #[trigger] x[t] == F::zero_spec(),
    ensures
        n <= i ==> dot(row, x, n) == F::zero_spec(),
        i < n <= j ==> dot(row, x, n) == row[i] * x[i],
        j < n ==> dot(row, x, n) == row[i] * x[i] + row[j] * x[j],
    decreases n,
{
    field::lemma_of_val(0);
    if n > 0 {
        lemma_dot_two(row, x, (n - 1) as nat, i, j);
        let t: int = n - 1;
        let term = row[t] * x[t];
        field::lemma_of_val(row[t].val() * x[t].val());
        if t == i {
            field::lemma_add_zero(term);
        } else if t != j {
            assert(row[t] * x[t] == F::zero_spec());
            lemma_dot_canonical(row, x, (n - 1) as nat);
            field::lemma_add_zero(dot(row, x, (n - 1) as nat));
        }
    }
}

/// Whether the first `c` columns are those of the identity.
spec fn reduced(m: Seq<[F; 6]>, c: int) -> bool {
    forall|r: int, j: int|
        0 <= r < 5 && 0 <= j < c ==> #[trigger] m[r]@[j] == (if r == j {
            F::one_spec()
        } else {
            F::zero_spec()
        })
}

/// The row less a multiple of the pivot row.
fn subtract_row(row: &[F; 6], pivot: &[F; 6], k: F) -> (r: [F; 6])
    ensures
        forall|j: int| 0 <= j < 6 ==> #[trigger] r@[j] == row@[j] - pivot@[j] * k,
{
    let mut out: [F; 6] = [F::zero(); 6];
    let mut j: usize = 0;
    while j < 6
        invariant
            j <= 6,
            forall|t: int| 0 <= t < j ==> #[trigger] out@[t] == row@[t] - pivot@[t] * k,
        decreases 6 - j,
    {
        out[j] = row[j].sub(pivot[j].mul(k));
        j = j + 1;
    }
    out
}

fn scale_row(row: &[F; 6], k: F) -> (r: [F; 6])
    ensures
        forall|j: int| 0 <= j < 6 ==> #[trigger] r@[j] == row@[j] * k,
{
    let mut out: [F; 6] = [F::zero(); 6];
    let mut j: usize = 0;
    while j < 6
        invariant
            j <= 6,
            forall|t: int| 0 <= t < j ==> #[trigger] out@[t] == row@[t] * k,
        decreases 6 - j,
    {
        out[j] = row[j].mul(k);
        j = j + 1;
    }
    out
}

/// Every run-time value is canonical.
fn known_canonical_row(row: &[F; 6])
    ensures
        forall|j: int| 0 <= j < 6 ==> (#[trigger] row@[j]).canonical(),
{
    let mut j: usize = 0;
    while j < 6
        invariant
            j <= 6,
            forall|t: int| 0 <= t < j ==> (#[trigger] row@[t]).canonical(),
        decreases 6 - j,
    {
        let _ = row[j].as_u32();
        j = j + 1;
    }
}

/// Makes column `c` that of the identity, with row `p` as the pivot.
fn eliminate(m: &[[F; 6]; 5], c: usize, p: usize) -> (r: [[F; 6]; 5])
    requires
        c < 5,
        c <= p < 5,
        m@[p as int]@[c as int] != F::zero_spec(),
        reduced(m@, c as int),
    ensures
        reduced(r@, c + 1),
        implies_rows(r@, m@),
{
    let mut s: [[F; 6]; 5] = *m;
    let row_p = m[p];
    let row_c = m[c];
    let inv = row_p[c].inverse();
    let pivot = scale_row(&row_p, inv);
    s[p] = row_c;
    s[c] = pivot;
    let ghost s1 = s@;
    proof {
        let z = F::zero_spec();
        let one = F::one_spec();
        assert(pivot@[c as int] == one);
        assert forall|j: int| 0 <= j < c implies #[trigger] pivot@[j] == z by {
            assert(m@[p as int]@[j] == z);
            field::lemma_mul_zero(inv);
        }
        assert forall|x: Seq<F>| #[trigger] vanishes(s1, x) implies vanishes(m@, x) by {
            assert forall|r: int| 0 <= r < 5 implies #[trigger] dot(m@[r]@, x, 6) == z by {
                if r == p {
                    // The pivot row is the multiple of row p by an inverse.
                    assert(dot(s1[c as int]@, x, 6) == z);
                    lemma_dot_scale(row_p@, pivot@, inv, x, 6);
                    let d = dot(row_p@, x, 6);
                    lemma_dot_canonical(row_p@, x, 6);
                    let q = row_p@[c as int];
                    field::lemma_mul_assoc(d, inv, q);
                    field::lemma_mul_comm(inv, q);
                    field::lemma_mul_one(d);
                    field::lemma_mul_zero(q);
                } else if r == c {
                    assert(dot(s1[p as int]@, x, 6) == z);
                } else {
                    assert(dot(s1[r]@, x, 6) == z);
                }
            }
        }
    }
    let mut i: usize = 0;
    while i < 5
        invariant
            c < 5,
            i <= 5,
            s@.len() == 5,
            s1.len() == 5,
            s@[c as int] == pivot,
            s1[c as int] == pivot,
            forall|r: int| i <= r < 5 ==> #[trigger] s@[r] == s1[r],
            forall|r: int, j: int|
                0 <= r < i && r != c && 0 <= j < 6 ==> #[trigger] s@[r]@[j] == s1[r]@[j] - pivot@[j] * s1[r]@[c as int],
            forall|r: int, j: int| 0 <= r < i && r != c && 0 <= j < 6 ==> (#[trigger] s1[r]@[j]).canonical(),
        decreases 5 - i,
    {
        if i != c {
            let row = s[i];
            known_canonical_row(&row);
            let ghost before = s@;
            s[i] = subtract_row(&row, &pivot, row[c]);
            proof {
                assert forall|r: int, j: int| 0 <= r < i + 1 && r != c && 0 <= j < 6 implies #[trigger] s@[r]@[j]
                    == s1[r]@[j] - pivot@[j] * s1[r]@[c as int] by {
                    if r < i {
                        assert(s@[r] == before[r]);
                    }
                }
            }
        }
        i = i + 1;
    }
    proof {
        let z = F::zero_spec();
        assert forall|x: Seq<F>| #[trigger] vanishes(s@, x) implies vanishes(m@, x) by {
            assert forall|r: int| 0 <= r < 5 implies #[trigger] dot(s1[r]@, x, 6) == z by {
                assert(dot(s@[c as int]@, x, 6) == z);
                if r != c {
                    let k = s1[r]@[c as int];
                    assert(dot(s@[r]@, x, 6) == z);
                    lemma_dot_sub(s1[r]@, pivot@, s@[r]@, k, x, 6);
                    field::lemma_mul_zero(k);
                    lemma_dot_canonical(s1[r]@, x, 6);
                    field::lemma_sub_zero_canonical(dot(s1[r]@, x, 6));
                }
            }
            assert(vanishes(s1, x));
        }
        assert forall|r: int, j: int| 0 <= r < 5 && 0 <= j < c + 1 implies #[trigger] s@[r]@[j] == (if r == j {
            F::one_spec()
        } else {
            z
        }) by {
            if r == c {
                if j < c {
                    assert(pivot@[j] == z);
                }
            } else {
                let k = s1[r]@[c as int];
                assert(k.canonical());
                assert(s1[r]@[j].canonical());
                assert(s@[r]@[j] == s1[r]@[j] - pivot@[j] * k);
                if j == c {
                    field::lemma_mul_one(k);
                    field::lemma_sub_self(k);
                } else {
                    assert(pivot@[j] == z);
                    field::lemma_mul_zero(k);
                    field::lemma_sub_zero_canonical(s1[r]@[j]);
                    // Rows other than the pivot are rows of m, with row c in the place of row p.
                    assert(s1[r] == (if r == p {
                        m@[c as int]
                    } else {
                        m@[r]
                    }));
                    assert(m@[c as int]@[j] == z);
                    assert(m@[r]@[j] == (if r == j {
                        F::one_spec()
                    } else {
                        z
                    }));
                }
            }
        }
    }
    s
}

/// The matrix of multiplication by `a`, with the coefficients of one to its right.
fn multiplication_matrix(a: EF) -> (r: [[F; 6]; 5])
    ensures
        forall|i: int, j: int|
            0 <= i < 5 && 0 <= j < 5 ==> #[trigger] r@[i]@[j] == shifted(a, j).limb_spec(i),
        forall|i: int|
            0 <= i < 5 ==> #[trigger] r@[i]@[5] == (if i == 0 {
                F::one_spec()
            } else {
                F::zero_spec()
            }),
{
    let a1 = a.shift();
    let a2 = a1.shift();
    let a3 = a2.shift();
    let a4 = a3.shift();
    [
        [a.c0, a1.c0, a2.c0, a3.c0, a4.c0, F::one()],
        [a.c1, a1.c1, a2.c1, a3.c1, a4.c1, F::zero()],
        [a.c2, a1.c2, a2.c2, a3.c2, a4.c2, F::zero()],
        [a.c3, a1.c3, a2.c3, a3.c3, a4.c3, F::zero()],
        [a.c4, a1.c4, a2.c4, a3.c4, a4.c4, F::zero()],
    ]
}

/// `X^j a`, for `j` below five.
spec fn shifted(a: EF, j: int) -> EF {
    if j == 0 {
        a
    } else if j == 1 {
        a.shift_spec()
    } else if j == 2 {
        a.shift_spec().shift_spec()
    } else if j == 3 {
        a.shift_spec().shift_spec().shift_spec()
    } else {
        a.shift_spec().shift_spec().shift_spec().shift_spec()
    }
}

/// The matrix vanishes on the coefficients of `b` followed by `-t` only where `a b` is `t`.
proof fn lemma_matrix(a: EF, m: Seq<[F; 6]>, b: EF, t: F)
    requires
        forall|i: int, j: int|
            0 <= i < 5 && 0 <= j < 5 ==> #[trigger] m[i]@[j] == shifted(a, j).limb_spec(i),
        forall|i: int|
            0 <= i < 5 ==> #[trigger] m[i]@[5] == (if i == 0 {
                F::one_spec()
            } else {
                F::zero_spec()
            }),
        t.canonical(),
        vanishes(m, seq![b.c0, b.c1, b.c2, b.c3, b.c4, t.negate_spec()]),
    ensures
        a * b == EF::from_base_spec(t),
{
    let x = seq![b.c0, b.c1, b.c2, b.c3, b.c4, t.negate_spec()];
    assert forall|i: int| 0 <= i < 5 implies #[trigger] (a * b).limb_spec(i) == EF::from_base_spec(t).limb_spec(i) by {
        let row = m[i]@;
        assert(dot(row, x, 6) == F::zero_spec());
        assert(row[0] == shifted(a, 0).limb_spec(i));
        assert(row[1] == shifted(a, 1).limb_spec(i));
        assert(row[2] == shifted(a, 2).limb_spec(i));
        assert(row[3] == shifted(a, 3).limb_spec(i));
        assert(row[4] == shifted(a, 4).limb_spec(i));
        reveal_with_fuel(dot, 7);
        let t0 = row[0] * b.c0;
        field::lemma_of_val(row[0].val() * b.c0.val());
        field::lemma_add_zero(t0);
        let p = (a * b).limb_spec(i);
        assert(dot(row, x, 5) == p);
        ext::lemma_mul_canonical(a, b);
        // p + m[i][5] * (-t) is zero.
        let n = t.negate_spec();
        field::lemma_of_val(-t.val());
        field::lemma_of_val(0);
        if i == 0 {
            field::lemma_mul_one(n);
            field::lemma_sub_is_add_neg(p, t);
            field::lemma_sub_zero_iff(p, t);
        } else {
            field::lemma_mul_zero(n);
            field::lemma_add_zero(p);
        }
    }
    assert((a * b).limb_spec(0) == t);
    assert((a * b).limb_spec(1) == F::zero_spec());
    assert((a * b).limb_spec(2) == F::zero_spec());
    assert((a * b).limb_spec(3) == F::zero_spec());
    assert((a * b).limb_spec(4) == F::zero_spec());
}

/// The solution read off a reduced matrix.
proof fn lemma_solved(m: Seq<[F; 6]>)
    requires
        reduced(m, 5),
        forall|r: int| 0 <= r < 5 ==> (#[trigger] m[r]@[5]).canonical(),
    ensures
        vanishes(
            m,
            seq![m[0]@[5], m[1]@[5], m[2]@[5], m[3]@[5], m[4]@[5], F::one_spec().negate_spec()],
        ),
{
    let n = F::one_spec().negate_spec();
    let x = seq![m[0]@[5], m[1]@[5], m[2]@[5], m[3]@[5], m[4]@[5], n];
    assert forall|r: int| 0 <= r < 5 implies #[trigger] dot(m[r]@, x, 6) == F::zero_spec() by {
        let row = m[r]@;
        let v = row[5];
        assert forall|t: int| 0 <= t < 6 && t != r && t != 5 implies row[t] * #[trigger] x[t] == F::zero_spec() by {
            assert(m[r]@[t] == F::zero_spec());
            field::lemma_mul_zero(x[t]);
        }
        lemma_dot_two(row, x, 6, r, 5);
        assert(m[r]@[r] == F::one_spec());
        assert(m[r]@[5].canonical());
        assert(x[r] == v);
        field::lemma_mul_one(v);
        field::lemma_negate_one_mul(v);
    }
}

/// A vector in the kernel, read off a matrix with no pivot in column `c`.
proof fn lemma_kernel(m: Seq<[F; 6]>, c: int, x: Seq<F>)
    requires
        0 <= c < 5,
        reduced(m, c),
        forall|r: int| c <= r < 5 ==> #[trigger] m[r]@[c] == F::zero_spec(),
        forall|r: int| 0 <= r < c ==> (#[trigger] m[r]@[c]).canonical(),
        x.len() == 6,
        forall|j: int| 0 <= j < c ==> #[trigger] x[j] == m[j]@[c].negate_spec(),
        x[c] == F::one_spec(),
        forall|j: int| c < j < 6 ==> #[trigger] x[j] == F::zero_spec(),
    ensures
        vanishes(m, x),
{
    let z = F::zero_spec();
    assert forall|r: int| 0 <= r < 5 implies #[trigger] dot(m[r]@, x, 6) == z by {
        let row = m[r]@;
        assert forall|t: int| 0 <= t < 6 && t != r && t != c implies row[t] * #[trigger] x[t] == z by {
            if t < c {
                assert(m[r]@[t] == z);
                field::lemma_mul_zero(x[t]);
            } else {
                field::lemma_mul_zero(row[t]);
            }
        }
        if r < c {
            lemma_dot_two(row, x, 6, r, c);
            let v = m[r]@[c];
            assert(v.canonical());
            assert(m[r]@[r] == F::one_spec());
            assert(x[r] == v.negate_spec());
            field::lemma_of_val(-v.val());
            field::lemma_mul_one(v.negate_spec());
            field::lemma_mul_one(v);
            field::lemma_negate_add_self(v);
        } else {
            assert(m[r]@[c] == z);
            field::lemma_mul_zero(x[c]);
            if r > c {
                field::lemma_mul_zero(row[r]);
                assert(x[r] == z);
                lemma_dot_two(row, x, 6, c, r);
            } else {
                field::lemma_mul_zero(row[5]);
                assert(x[5] == z);
                lemma_dot_two(row, x, 6, c, 5);
            }
            field::lemma_of_val(0);
            field::lemma_add_zero(z);
        }
    }
}

impl EF {
    /// The inverse, which every element but zero has.
    pub fn try_inverse(self) -> (r: Option<EF>)
        ensures
            r is Some <==> self != EF::zero_spec(),
            r matches Some(b) ==> self * b == EF::one_spec(),
    {
        self.assert_canonical();
        proof {
            frobenius::lemma_unit_iff_nonzero(self);
        }
        let m0 = multiplication_matrix(self);
        let mut m: [[F; 6]; 5] = m0;
        let mut c: usize = 0;
        while c < 5
            invariant
                c <= 5,
                self.is_unit() <==> self != EF::zero_spec(),
                forall|i: int, j: int|
                    0 <= i < 5 && 0 <= j < 5 ==> #[trigger] m0@[i]@[j] == shifted(self, j).limb_spec(i),
                forall|i: int|
                    0 <= i < 5 ==> #[trigger] m0@[i]@[5] == (if i == 0 {
                        F::one_spec()
                    } else {
                        F::zero_spec()
                    }),
                reduced(m@, c as int),
                implies_rows(m@, m0@),
            decreases 5 - c,
        {
            let mut p: usize = c;
            while p < 5 && m[p][c] == F::zero()
                invariant
                    c <= p <= 5,
                    c < 5,
                    forall|r: int| c <= r < p ==> #[trigger] m@[r]@[c as int] == F::zero_spec(),
                decreases 5 - p,
            {
                p = p + 1;
            }
            if p == 5 {
                self.assert_canonical();
                let mut i: usize = 0;
                while i < 5
                    invariant
                        c < 5,
                        i <= 5,
                        forall|r: int| 0 <= r < i ==> (#[trigger] m@[r]@[c as int]).canonical(),
                    decreases 5 - i,
                {
                    known_canonical_row(&m[i]);
                    i = i + 1;
                }
                proof {
                    lemma_no_pivot(self, m0@, m@, c as int);
                }
                return None;
            }
            let next = eliminate(&m, c, p);
            proof {
                assert forall|x: Seq<F>| #[trigger] vanishes(next@, x) implies vanishes(m0@, x) by {
                    assert(vanishes(m@, x));
                }
            }
            m = next;
            c = c + 1;
        }
        let mut i: usize = 0;
        while i < 5
            invariant
                i <= 5,
                forall|r: int| 0 <= r < i ==> (#[trigger] m@[r]@[5]).canonical(),
            decreases 5 - i,
        {
            known_canonical_row(&m[i]);
            i = i + 1;
        }
        let b = EF { c0: m[0][5], c1: m[1][5], c2: m[2][5], c3: m[3][5], c4: m[4][5] };
        proof {
            lemma_solved(m@);
            field::lemma_of_val(1);
            lemma_matrix(self, m0@, b, F::one_spec());
            assert(b.canonical());
        }
        Some(b)
    }
}

/// Without a pivot, some element other than zero has the product zero.
proof fn lemma_no_pivot(a: EF, m0: Seq<[F; 6]>, m: Seq<[F; 6]>, c: int)
    requires
        0 <= c < 5,
        a.canonical(),
        forall|i: int, j: int|
            0 <= i < 5 && 0 <= j < 5 ==> #[trigger] m0[i]@[j] == shifted(a, j).limb_spec(i),
        forall|i: int|
            0 <= i < 5 ==> #[trigger] m0[i]@[5] == (if i == 0 {
                F::one_spec()
            } else {
                F::zero_spec()
            }),
        reduced(m, c),
        implies_rows(m, m0),
        forall|r: int| c <= r < 5 ==> #[trigger] m[r]@[c] == F::zero_spec(),
        forall|r: int| 0 <= r < 5 ==> (#[trigger] m[r]@[c]).canonical(),
    ensures
        !a.is_unit(),
{
    let z = F::zero_spec();
    let one = F::one_spec();
    let e = |j: int|
        if j < c {
            m[j]@[c].negate_spec()
        } else if j == c {
            one
        } else {
            z
        };
    let v = EF { c0: e(0), c1: e(1), c2: e(2), c3: e(3), c4: e(4) };
    let x = seq![v.c0, v.c1, v.c2, v.c3, v.c4, z.negate_spec()];
    field::lemma_of_val(0);
    field::lemma_of_val(1);
    assert(z.negate_spec() == z);
    lemma_kernel(m, c, x);
    lemma_matrix(a, m0, v, z);
    if a.is_unit() {
        let b = choose|b: EF| b.canonical() && #[trigger] (a * b) == EF::one_spec();
        assert(v.canonical()) by {
            field::lemma_of_val(-m[0]@[c].val());
            field::lemma_of_val(-m[1]@[c].val());
            field::lemma_of_val(-m[2]@[c].val());
            field::lemma_of_val(-m[3]@[c].val());
        }
        ext::lemma_mul_comm(a, b);
        ext::lemma_mul_assoc(b, a, v);
        ext::lemma_mul_one(v);
        ext::lemma_mul_zero(b);
        assert(v == EF::zero_spec());
        assert(v.limb_spec(c) == one);
        assert(one.val() == 1);
        assert(z.val() == 0);
    }
}

} // verus!
