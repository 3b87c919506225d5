//! The degree-five extension of the base field: polynomials over it modulo `X^5 + X^2 - 1`.
use crate::field;
use crate::field::F;
use vstd::prelude::*;

verus! {

/// The degree of the extension.
pub const DIMENSION: usize = 5;

/// An element of the extension, by its coefficients in the basis `1, X, X^2, X^3, X^4`.
#[derive(Clone, Copy, Debug, PartialEq, Eq, Structural)]
pub struct EF {
    pub c0: F,
    pub c1: F,
    pub c2: F,
    pub c3: F,
    pub c4: F,
}

impl EF {
    /// Whether every coefficient is held canonically, which holds of every value at run time.
    pub open spec fn canonical(self) -> bool {
        self.c0.canonical() && self.c1.canonical() && self.c2.canonical() && self.c3.canonical()
            && self.c4.canonical()
    }

    /// The coefficient of `X^i`.
    pub open spec fn limb_spec(self, i: int) -> F {
        if i == 0 {
            self.c0
        } else if i == 1 {
            self.c1
        } else if i == 2 {
            self.c2
        } else if i == 3 {
            self.c3
        } else {
            self.c4
        }
    }

    pub open spec fn zero_spec() -> EF {
        EF::from_base_spec(F::zero_spec())
    }

    pub open spec fn one_spec() -> EF {
        EF::from_base_spec(F::one_spec())
    }

    /// The base field inside the extension.
    pub open spec fn from_base_spec(a: F) -> EF {
        EF { c0: a, c1: F::zero_spec(), c2: F::zero_spec(), c3: F::zero_spec(), c4: F::zero_spec() }
    }

    /// The basis element `X^i`.
    pub open spec fn basis_spec(i: int) -> EF {
        EF {
            c0: if i == 0 { F::one_spec() } else { F::zero_spec() },
            c1: if i == 1 { F::one_spec() } else { F::zero_spec() },
            c2: if i == 2 { F::one_spec() } else { F::zero_spec() },
            c3: if i == 3 { F::one_spec() } else { F::zero_spec() },
            c4: if i == 4 { F::one_spec() } else { F::zero_spec() },
        }
    }

    pub open spec fn spec_add(self, b: EF) -> EF {
        EF {
            c0: self.c0 + b.c0,
            c1: self.c1 + b.c1,
            c2: self.c2 + b.c2,
            c3: self.c3 + b.c3,
            c4: self.c4 + b.c4,
        }
    }

    pub open spec fn spec_sub(self, b: EF) -> EF {
        EF {
            c0: self.c0 - b.c0,
            c1: self.c1 - b.c1,
            c2: self.c2 - b.c2,
            c3: self.c3 - b.c3,
            c4: self.c4 - b.c4,
        }
    }

    pub open spec fn negate_spec(self) -> EF {
        EF { c0: self.c0.negate_spec(), c1: self.c1.negate_spec(), c2: self.c2.negate_spec(), c3: self.c3.negate_spec(), c4: self.c4.negate_spec() }
    }

    /// The product with an element of the base field.
    pub open spec fn scale_spec(self, k: F) -> EF {
        EF { c0: self.c0 * k, c1: self.c1 * k, c2: self.c2 * k, c3: self.c3 * k, c4: self.c4 * k }
    }

    /// The product with `X`, where `X^5` is `1 - X^2`.
    pub open spec fn shift_spec(self) -> EF {
        EF { c0: self.c4, c1: self.c0, c2: self.c1 - self.c4, c3: self.c2, c4: self.c3 }
    }

    /// The product: the sum of `b_i X^i a`.
    pub open spec fn spec_mul(self, b: EF) -> EF {
        let a1 = self.shift_spec();
        let a2 = a1.shift_spec();
        let a3 = a2.shift_spec();
        let a4 = a3.shift_spec();
        self.scale_spec(b.c0) + a1.scale_spec(b.c1) + a2.scale_spec(b.c2) + a3.scale_spec(b.c3) + a4.scale_spec(b.c4)
    }

    /// The `n`-th power.
    pub open spec fn pow(self, n: nat) -> EF
        decreases n,
    {
        if n == 0 {
            EF::one_spec()
        } else {
            self.pow((n - 1) as nat) * self
        }
    }

    /// Whether some element is the inverse of this one.
    pub open spec fn is_unit(self) -> bool {
        exists|b: EF| b.canonical() && #[trigger] (self * b) == EF::one_spec()
    }

    pub fn zero() -> (r: EF)
        ensures
            r == EF::zero_spec(),
    {
        EF { c0: F::zero(), c1: F::zero(), c2: F::zero(), c3: F::zero(), c4: F::zero() }
    }

    pub fn one() -> (r: EF)
        ensures
            r == EF::one_spec(),
    {
        EF { c0: F::one(), c1: F::zero(), c2: F::zero(), c3: F::zero(), c4: F::zero() }
    }

    /// The base field inside the extension.
    pub fn from_base(a: F) -> (r: EF)
        ensures
            r == EF::from_base_spec(a),
    {
        EF { c0: a, c1: F::zero(), c2: F::zero(), c3: F::zero(), c4: F::zero() }
    }

    /// The element with the given coefficients.
    pub fn from_basis_coefficients(c: [F; 5]) -> (r: EF)
        ensures
            forall|i: int| 0 <= i < 5 ==> #[trigger] r.limb_spec(i) == c@[i],
    {
        EF { c0: c[0], c1: c[1], c2: c[2], c3: c[3], c4: c[4] }
    }

    /// The coefficient of `X^i`.
    pub fn limb(self, i: usize) -> (r: F)
        requires
            i < DIMENSION,
        ensures
            r == self.limb_spec(i as int),
    {
        if i == 0 {
            self.c0
        } else if i == 1 {
            self.c1
        } else if i == 2 {
            self.c2
        } else if i == 3 {
            self.c3
        } else {
            self.c4
        }
    }

    /// The basis element `X^i`.
    pub fn basis(i: usize) -> (r: EF)
        requires
            i < DIMENSION,
        ensures
            r == EF::basis_spec(i as int),
    {
        EF {
            c0: if i == 0 { F::one() } else { F::zero() },
            c1: if i == 1 { F::one() } else { F::zero() },
            c2: if i == 2 { F::one() } else { F::zero() },
            c3: if i == 3 { F::one() } else { F::zero() },
            c4: if i == 4 { F::one() } else { F::zero() },
        }
    }

    /// The product with an element of the base field.
    pub fn scale(self, k: F) -> (r: EF)
        ensures
            r == self.scale_spec(k),
    {
        EF {
            c0: self.c0.mul(k),
            c1: self.c1.mul(k),
            c2: self.c2.mul(k),
            c3: self.c3.mul(k),
            c4: self.c4.mul(k),
        }
    }

    /// The product with `X`.
    pub fn shift(self) -> (r: EF)
        ensures
            r == self.shift_spec(),
    {
        EF { c0: self.c4, c1: self.c0, c2: self.c1.sub(self.c4), c3: self.c2, c4: self.c3 }
    }

    /// The sum.
    pub fn add(self, b: EF) -> (r: EF)
        ensures
            r == self + b,
    {
        EF {
            c0: self.c0.add(b.c0),
            c1: self.c1.add(b.c1),
            c2: self.c2.add(b.c2),
            c3: self.c3.add(b.c3),
            c4: self.c4.add(b.c4),
        }
    }

    /// The difference.
    pub fn sub(self, b: EF) -> (r: EF)
        ensures
            r == self - b,
    {
        EF {
            c0: self.c0.sub(b.c0),
            c1: self.c1.sub(b.c1),
            c2: self.c2.sub(b.c2),
            c3: self.c3.sub(b.c3),
            c4: self.c4.sub(b.c4),
        }
    }

    /// The product.
    pub fn mul(self, b: EF) -> (r: EF)
        ensures
            r == self * b,
    {
        let a1 = self.shift();
        let a2 = a1.shift();
        let a3 = a2.shift();
        let a4 = a3.shift();
        self.scale(b.c0).add(a1.scale(b.c1)).add(a2.scale(b.c2)).add(a3.scale(b.c3)).add(a4.scale(b.c4))
    }

    /// The negative.
    pub fn negate(self) -> (r: EF)
        ensures
            r == self.negate_spec(),
    {
        EF {
            c0: self.c0.negate(),
            c1: self.c1.negate(),
            c2: self.c2.negate(),
            c3: self.c3.negate(),
            c4: self.c4.negate(),
        }
    }

    /// Twice the element.
    pub fn double(self) -> (r: EF)
        ensures
            r == self + self,
    {
        self.add(self)
    }

    /// The second power.
    pub fn square(self) -> (r: EF)
        ensures
            r == self * self,
    {
        self.mul(self)
    }

    /// The third power.
    pub fn cube(self) -> (r: EF)
        ensures
            r == self * self * self,
    {
        self.mul(self).mul(self)
    }

    /// Every run-time value is canonical.
    pub fn assert_canonical(&self)
        ensures
            self.canonical(),
    {
        let _ = self.c0.as_u32();
        let _ = self.c1.as_u32();
        let _ = self.c2.as_u32();
        let _ = self.c3.as_u32();
        let _ = self.c4.as_u32();
    }
}

pub proof fn lemma_add_comm(a: EF, b: EF)
    ensures
        a + b == b + a,
{
}

pub proof fn lemma_add_assoc(a: EF, b: EF, c: EF)
    ensures
        (a + b) + c == a + (b + c),
{
    field::lemma_add_assoc(a.c0, b.c0, c.c0);
    field::lemma_add_assoc(a.c1, b.c1, c.c1);
    field::lemma_add_assoc(a.c2, b.c2, c.c2);
    field::lemma_add_assoc(a.c3, b.c3, c.c3);
    field::lemma_add_assoc(a.c4, b.c4, c.c4);
}

pub proof fn lemma_add_canonical(a: EF, b: EF)
    ensures
        (a + b).canonical(),
        (a - b).canonical(),
        a.negate_spec().canonical(),
{
    broadcast use field::lemma_of_val;
}

pub proof fn lemma_scale_canonical(a: EF, k: F)
    ensures
        a.scale_spec(k).canonical(),
{
    broadcast use field::lemma_of_val;
}

pub proof fn lemma_mul_canonical(a: EF, b: EF)
    ensures
        (a * b).canonical(),
{
    let a1 = a.shift_spec();
    let a2 = a1.shift_spec();
    let a3 = a2.shift_spec();
    let a4 = a3.shift_spec();
    lemma_add_canonical(
        a.scale_spec(b.c0) + a1.scale_spec(b.c1) + a2.scale_spec(b.c2) + a3.scale_spec(b.c3),
        a4.scale_spec(b.c4),
    );
}

pub proof fn lemma_constants_canonical()
    ensures
        EF::zero_spec().canonical(),
        EF::one_spec().canonical(),
{
    field::lemma_of_val(0);
    field::lemma_of_val(1);
}

pub proof fn lemma_add_zero(a: EF)
    requires
        a.canonical(),
    ensures
        a + EF::zero_spec() == a,
        EF::zero_spec() + a == a,
{
    field::lemma_add_zero(a.c0);
    field::lemma_add_zero(a.c1);
    field::lemma_add_zero(a.c2);
    field::lemma_add_zero(a.c3);
    field::lemma_add_zero(a.c4);
}

pub proof fn lemma_sub_self(a: EF)
    ensures
        a - a == EF::zero_spec(),
{
}

/// Subtraction is addition of the negative.
pub proof fn lemma_sub_is_add_neg(a: EF, b: EF)
    ensures
        a - b == a + b.negate_spec(),
{
    field::lemma_sub_is_add_neg(a.c0, b.c0);
    field::lemma_sub_is_add_neg(a.c1, b.c1);
    field::lemma_sub_is_add_neg(a.c2, b.c2);
    field::lemma_sub_is_add_neg(a.c3, b.c3);
    field::lemma_sub_is_add_neg(a.c4, b.c4);
}

/// `(a + b) + (c + d)` with the middle terms exchanged.
pub proof fn lemma_add_exchange(a: EF, b: EF, c: EF, d: EF)
    ensures
        (a + b) + (c + d) == (a + c) + (b + d),
{
    lemma_add_assoc(a, b, c + d);
    lemma_add_assoc(b, c, d);
    lemma_add_comm(b, c);
    lemma_add_assoc(c, b, d);
    lemma_add_assoc(a, c, b + d);
}

pub proof fn lemma_scale_add(a: EF, b: EF, k: F)
    ensures
        (a + b).scale_spec(k) == a.scale_spec(k) + b.scale_spec(k),
{
    field::lemma_mul_distrib(k, a.c0, b.c0);
    field::lemma_mul_distrib(k, a.c1, b.c1);
    field::lemma_mul_distrib(k, a.c2, b.c2);
    field::lemma_mul_distrib(k, a.c3, b.c3);
    field::lemma_mul_distrib(k, a.c4, b.c4);
}

pub proof fn lemma_scale_scalar_add(a: EF, k: F, l: F)
    ensures
        a.scale_spec(k + l) == a.scale_spec(k) + a.scale_spec(l),
{
    field::lemma_mul_distrib(a.c0, k, l);
    field::lemma_mul_distrib(a.c1, k, l);
    field::lemma_mul_distrib(a.c2, k, l);
    field::lemma_mul_distrib(a.c3, k, l);
    field::lemma_mul_distrib(a.c4, k, l);
}

pub proof fn lemma_scale_scale(a: EF, k: F, l: F)
    ensures
        a.scale_spec(k).scale_spec(l) == a.scale_spec(k * l),
{
    field::lemma_mul_assoc(a.c0, k, l);
    field::lemma_mul_assoc(a.c1, k, l);
    field::lemma_mul_assoc(a.c2, k, l);
    field::lemma_mul_assoc(a.c3, k, l);
    field::lemma_mul_assoc(a.c4, k, l);
}

proof fn lemma_shift_add(a: EF, b: EF)
    ensures
        (a + b).shift_spec() == a.shift_spec() + b.shift_spec(),
{
    field::lemma_sub_exchange(a.c1, b.c1, a.c4, b.c4);
}

proof fn lemma_shift_scale(a: EF, k: F)
    ensures
        a.scale_spec(k).shift_spec() == a.shift_spec().scale_spec(k),
{
    field::lemma_mul_distrib_sub(k, a.c1, a.c4);
    field::lemma_mul_comm(k, a.c1);
    field::lemma_mul_comm(k, a.c4);
    field::lemma_mul_comm(k, a.c1 - a.c4);
}

spec fn sum5(x0: EF, x1: EF, x2: EF, x3: EF, x4: EF) -> EF {
    x0 + x1 + x2 + x3 + x4
}

proof fn lemma_sum5_add(x0: EF, x1: EF, x2: EF, x3: EF, x4: EF, y0: EF, y1: EF, y2: EF, y3: EF, y4: EF)
    ensures
        sum5(x0, x1, x2, x3, x4) + sum5(y0, y1, y2, y3, y4) == sum5(x0 + y0, x1 + y1, x2 + y2, x3 + y3, x4 + y4),
{
    lemma_add_exchange(x0 + x1 + x2 + x3, x4, y0 + y1 + y2 + y3, y4);
    lemma_add_exchange(x0 + x1 + x2, x3, y0 + y1 + y2, y3);
    lemma_add_exchange(x0 + x1, x2, y0 + y1, y2);
    lemma_add_exchange(x0, x1, y0, y1);
}

pub proof fn lemma_mul_distrib_left(a: EF, b: EF, c: EF)
    ensures
        (a + b) * c == a * c + b * c,
{
    let a1 = a.shift_spec();
    let a2 = a1.shift_spec();
    let a3 = a2.shift_spec();
    let a4 = a3.shift_spec();
    let b1 = b.shift_spec();
    let b2 = b1.shift_spec();
    let b3 = b2.shift_spec();
    let b4 = b3.shift_spec();
    lemma_shift_add(a, b);
    lemma_shift_add(a1, b1);
    lemma_shift_add(a2, b2);
    lemma_shift_add(a3, b3);
    lemma_scale_add(a, b, c.c0);
    lemma_scale_add(a1, b1, c.c1);
    lemma_scale_add(a2, b2, c.c2);
    lemma_scale_add(a3, b3, c.c3);
    lemma_scale_add(a4, b4, c.c4);
    lemma_sum5_add(
        a.scale_spec(c.c0),
        a1.scale_spec(c.c1),
        a2.scale_spec(c.c2),
        a3.scale_spec(c.c3),
        a4.scale_spec(c.c4),
        b.scale_spec(c.c0),
        b1.scale_spec(c.c1),
        b2.scale_spec(c.c2),
        b3.scale_spec(c.c3),
        b4.scale_spec(c.c4),
    );
}

pub proof fn lemma_mul_distrib_right(a: EF, b: EF, c: EF)
    ensures
        a * (b + c) == a * b + a * c,
{
    let a1 = a.shift_spec();
    let a2 = a1.shift_spec();
    let a3 = a2.shift_spec();
    let a4 = a3.shift_spec();
    lemma_scale_scalar_add(a, b.c0, c.c0);
    lemma_scale_scalar_add(a1, b.c1, c.c1);
    lemma_scale_scalar_add(a2, b.c2, c.c2);
    lemma_scale_scalar_add(a3, b.c3, c.c3);
    lemma_scale_scalar_add(a4, b.c4, c.c4);
    lemma_sum5_add(
        a.scale_spec(b.c0),
        a1.scale_spec(b.c1),
        a2.scale_spec(b.c2),
        a3.scale_spec(b.c3),
        a4.scale_spec(b.c4),
        a.scale_spec(c.c0),
        a1.scale_spec(c.c1),
        a2.scale_spec(c.c2),
        a3.scale_spec(c.c3),
        a4.scale_spec(c.c4),
    );
}

proof fn lemma_sum5_scale(x0: EF, x1: EF, x2: EF, x3: EF, x4: EF, k: F)
    ensures
        sum5(x0, x1, x2, x3, x4).scale_spec(k) == sum5(
            x0.scale_spec(k),
            x1.scale_spec(k),
            x2.scale_spec(k),
            x3.scale_spec(k),
            x4.scale_spec(k),
        ),
{
    lemma_scale_add(x0 + x1 + x2 + x3, x4, k);
    lemma_scale_add(x0 + x1 + x2, x3, k);
    lemma_scale_add(x0 + x1, x2, k);
    lemma_scale_add(x0, x1, k);
}

proof fn lemma_sum5_shift(x0: EF, x1: EF, x2: EF, x3: EF, x4: EF)
    ensures
        sum5(x0, x1, x2, x3, x4).shift_spec() == sum5(
            x0.shift_spec(),
            x1.shift_spec(),
            x2.shift_spec(),
            x3.shift_spec(),
            x4.shift_spec(),
        ),
{
    lemma_shift_add(x0 + x1 + x2 + x3, x4);
    lemma_shift_add(x0 + x1 + x2, x3);
    lemma_shift_add(x0 + x1, x2);
    lemma_shift_add(x0, x1);
}

/// A scalar moves out of the right factor.
pub proof fn lemma_mul_scale_right(a: EF, b: EF, k: F)
    ensures
        a * b.scale_spec(k) == (a * b).scale_spec(k),
{
    let a1 = a.shift_spec();
    let a2 = a1.shift_spec();
    let a3 = a2.shift_spec();
    let a4 = a3.shift_spec();
    lemma_scale_scale(a, b.c0, k);
    lemma_scale_scale(a1, b.c1, k);
    lemma_scale_scale(a2, b.c2, k);
    lemma_scale_scale(a3, b.c3, k);
    lemma_scale_scale(a4, b.c4, k);
    lemma_sum5_scale(
        a.scale_spec(b.c0),
        a1.scale_spec(b.c1),
        a2.scale_spec(b.c2),
        a3.scale_spec(b.c3),
        a4.scale_spec(b.c4),
        k,
    );
}

/// `X` moves out of the left factor.
proof fn lemma_mul_shift_left(a: EF, b: EF)
    ensures
        a.shift_spec() * b == (a * b).shift_spec(),
{
    let a1 = a.shift_spec();
    let a2 = a1.shift_spec();
    let a3 = a2.shift_spec();
    let a4 = a3.shift_spec();
    lemma_shift_scale(a, b.c0);
    lemma_shift_scale(a1, b.c1);
    lemma_shift_scale(a2, b.c2);
    lemma_shift_scale(a3, b.c3);
    lemma_shift_scale(a4, b.c4);
    lemma_sum5_shift(
        a.scale_spec(b.c0),
        a1.scale_spec(b.c1),
        a2.scale_spec(b.c2),
        a3.scale_spec(b.c3),
        a4.scale_spec(b.c4),
    );
}

/// `X` moves out of the right factor.
proof fn lemma_mul_shift_right(a: EF, b: EF)
    ensures
        a * b.shift_spec() == (a * b).shift_spec(),
{
    let a1 = a.shift_spec();
    let a2 = a1.shift_spec();
    let a3 = a2.shift_spec();
    let a4 = a3.shift_spec();
    let a5 = a4.shift_spec();
    lemma_mul_shift_left(a, b);
    assert(a5 == a - a2);
    let x0 = a1.scale_spec(b.c0);
    let x1 = a2.scale_spec(b.c1);
    let x2 = a3.scale_spec(b.c2);
    let x3 = a4.scale_spec(b.c3);
    let y0 = a.scale_spec(b.c4);
    let y2 = a2.scale_spec(b.c4);
    // The left-hand side, with b4 X^5 a written as b4 a - b4 X^2 a.
    assert((a * b).shift_spec() == x0 + x1 + x2 + x3 + (y0 - y2)) by {
        lemma_scale_sub(a, a2, b.c4);
    }
    assert(a * b.shift_spec() == y0 + x0 + (x1 - y2) + x2 + x3) by {
        lemma_scale_scalar_sub(a2, b.c1, b.c4);
    }
    assert(y0 + x0 + (x1 - y2) + x2 + x3 == x0 + x1 + x2 + x3 + (y0 - y2)) by {
        field::lemma_shift_rearrange(y0.c0, x0.c0, x1.c0, y2.c0, x2.c0, x3.c0);
        field::lemma_shift_rearrange(y0.c1, x0.c1, x1.c1, y2.c1, x2.c1, x3.c1);
        field::lemma_shift_rearrange(y0.c2, x0.c2, x1.c2, y2.c2, x2.c2, x3.c2);
        field::lemma_shift_rearrange(y0.c3, x0.c3, x1.c3, y2.c3, x2.c3, x3.c3);
        field::lemma_shift_rearrange(y0.c4, x0.c4, x1.c4, y2.c4, x2.c4, x3.c4);
    }
}

pub proof fn lemma_scale_sub(a: EF, b: EF, k: F)
    ensures
        (a - b).scale_spec(k) == a.scale_spec(k) - b.scale_spec(k),
{
    field::lemma_mul_distrib_sub_left(a.c0, b.c0, k);
    field::lemma_mul_distrib_sub_left(a.c1, b.c1, k);
    field::lemma_mul_distrib_sub_left(a.c2, b.c2, k);
    field::lemma_mul_distrib_sub_left(a.c3, b.c3, k);
    field::lemma_mul_distrib_sub_left(a.c4, b.c4, k);
}

pub proof fn lemma_scale_scalar_sub(a: EF, k: F, l: F)
    ensures
        a.scale_spec(k - l) == a.scale_spec(k) - a.scale_spec(l),
{
    field::lemma_mul_distrib_sub(a.c0, k, l);
    field::lemma_mul_distrib_sub(a.c1, k, l);
    field::lemma_mul_distrib_sub(a.c2, k, l);
    field::lemma_mul_distrib_sub(a.c3, k, l);
    field::lemma_mul_distrib_sub(a.c4, k, l);
}

pub proof fn lemma_mul_assoc(a: EF, b: EF, c: EF)
    ensures
        (a * b) * c == a * (b * c),
{
    let b1 = b.shift_spec();
    let b2 = b1.shift_spec();
    let b3 = b2.shift_spec();
    let b4 = b3.shift_spec();
    let x0 = b.scale_spec(c.c0);
    let x1 = b1.scale_spec(c.c1);
    let x2 = b2.scale_spec(c.c2);
    let x3 = b3.scale_spec(c.c3);
    let x4 = b4.scale_spec(c.c4);
    lemma_mul_distrib_right(a, x0 + x1 + x2 + x3, x4);
    lemma_mul_distrib_right(a, x0 + x1 + x2, x3);
    lemma_mul_distrib_right(a, x0 + x1, x2);
    lemma_mul_distrib_right(a, x0, x1);
    lemma_mul_scale_right(a, b, c.c0);
    lemma_mul_scale_right(a, b1, c.c1);
    lemma_mul_scale_right(a, b2, c.c2);
    lemma_mul_scale_right(a, b3, c.c3);
    lemma_mul_scale_right(a, b4, c.c4);
    lemma_mul_shift_right(a, b);
    lemma_mul_shift_right(a, b1);
    lemma_mul_shift_right(a, b2);
    lemma_mul_shift_right(a, b3);
}

/// One from the left; exact on canonical elements.
proof fn lemma_one_mul(b: EF)
    requires
        b.canonical(),
    ensures
        EF::one_spec() * b == b,
{
    let one = EF::one_spec();
    let e1 = one.shift_spec();
    let e2 = e1.shift_spec();
    let e3 = e2.shift_spec();
    let e4 = e3.shift_spec();
    let z = F::zero_spec();
    let u = F::one_spec();
    lemma_constants_canonical();
    field::lemma_sub_self(z);
    assert(e1 == EF { c0: z, c1: u, c2: z, c3: z, c4: z });
    assert(e2 == EF { c0: z, c1: z, c2: u, c3: z, c4: z }) by {
        field::lemma_sub_zero_canonical(u);
    }
    assert(e3 == EF { c0: z, c1: z, c2: z, c3: u, c4: z });
    assert(e4 == EF { c0: z, c1: z, c2: z, c3: z, c4: u });
    field::lemma_unit_row(b.c0, b.c1, b.c2, b.c3, b.c4);
    field::lemma_mul_zero(b.c0);
    field::lemma_mul_zero(b.c1);
    field::lemma_mul_zero(b.c2);
    field::lemma_mul_zero(b.c3);
    field::lemma_mul_zero(b.c4);
    field::lemma_mul_one(b.c0);
    field::lemma_mul_one(b.c1);
    field::lemma_mul_one(b.c2);
    field::lemma_mul_one(b.c3);
    field::lemma_mul_one(b.c4);
}

proof fn lemma_mul_comm_canonical(a: EF, b: EF)
    requires
        a.canonical(),
        b.canonical(),
    ensures
        a * b == b * a,
{
    // a is the combination of the powers of X with its own coefficients.
    let one = EF::one_spec();
    let e1 = one.shift_spec();
    let e2 = e1.shift_spec();
    let e3 = e2.shift_spec();
    let e4 = e3.shift_spec();
    lemma_one_mul(a);
    lemma_one_mul(b);
    let x0 = one.scale_spec(a.c0);
    let x1 = e1.scale_spec(a.c1);
    let x2 = e2.scale_spec(a.c2);
    let x3 = e3.scale_spec(a.c3);
    let x4 = e4.scale_spec(a.c4);
    assert(a == x0 + x1 + x2 + x3 + x4);
    lemma_mul_distrib_left(x0 + x1 + x2 + x3, x4, b);
    lemma_mul_distrib_left(x0 + x1 + x2, x3, b);
    lemma_mul_distrib_left(x0 + x1, x2, b);
    lemma_mul_distrib_left(x0, x1, b);
    lemma_mul_scale_left(one, b, a.c0);
    lemma_mul_scale_left(e1, b, a.c1);
    lemma_mul_scale_left(e2, b, a.c2);
    lemma_mul_scale_left(e3, b, a.c3);
    lemma_mul_scale_left(e4, b, a.c4);
    lemma_mul_shift_left(one, b);
    lemma_mul_shift_left(e1, b);
    lemma_mul_shift_left(e2, b);
    lemma_mul_shift_left(e3, b);
}

pub proof fn lemma_mul_comm(a: EF, b: EF)
    ensures
        a * b == b * a,
{
    // The product depends on the canonical values alone.
    let z = EF::zero_spec();
    let x = a + z;
    let y = b + z;
    lemma_add_canonical(a, z);
    lemma_add_canonical(b, z);
    lemma_mul_comm_canonical(x, y);
    lemma_mul_zero(a);
    lemma_mul_zero(b);
    lemma_mul_zero(x);
    lemma_mul_zero(y);
    lemma_mul_distrib_right(x, b, z);
    lemma_mul_distrib_left(a, z, b);
    lemma_mul_distrib_right(y, a, z);
    lemma_mul_distrib_left(b, z, a);
    lemma_mul_canonical(x, b);
    lemma_mul_canonical(a, b);
    lemma_mul_canonical(y, a);
    lemma_mul_canonical(b, a);
    lemma_add_zero(x * b);
    lemma_add_zero(a * b);
    lemma_add_zero(y * a);
    lemma_add_zero(b * a);
}

/// A scalar moves out of the left factor.
pub proof fn lemma_mul_scale_left(a: EF, b: EF, k: F)
    ensures
        a.scale_spec(k) * b == (a * b).scale_spec(k),
{
    let a1 = a.shift_spec();
    let a2 = a1.shift_spec();
    let a3 = a2.shift_spec();
    let a4 = a3.shift_spec();
    lemma_shift_scale(a, k);
    lemma_shift_scale(a1, k);
    lemma_shift_scale(a2, k);
    lemma_shift_scale(a3, k);
    lemma_scale_scale(a, k, b.c0);
    lemma_scale_scale(a1, k, b.c1);
    lemma_scale_scale(a2, k, b.c2);
    lemma_scale_scale(a3, k, b.c3);
    lemma_scale_scale(a4, k, b.c4);
    lemma_scale_scale(a, b.c0, k);
    lemma_scale_scale(a1, b.c1, k);
    lemma_scale_scale(a2, b.c2, k);
    lemma_scale_scale(a3, b.c3, k);
    lemma_scale_scale(a4, b.c4, k);
    field::lemma_mul_comm(b.c0, k);
    field::lemma_mul_comm(b.c1, k);
    field::lemma_mul_comm(b.c2, k);
    field::lemma_mul_comm(b.c3, k);
    field::lemma_mul_comm(b.c4, k);
    lemma_sum5_scale(
        a.scale_spec(b.c0),
        a1.scale_spec(b.c1),
        a2.scale_spec(b.c2),
        a3.scale_spec(b.c3),
        a4.scale_spec(b.c4),
        k,
    );
}

pub proof fn lemma_mul_one(a: EF)
    requires
        a.canonical(),
    ensures
        a * EF::one_spec() == a,
        EF::one_spec() * a == a,
{
    lemma_one_mul(a);
    lemma_constants_canonical();
    lemma_mul_comm(a, EF::one_spec());
}

pub proof fn lemma_scale_zero(a: EF)
    ensures
        a.scale_spec(F::zero_spec()) == EF::zero_spec(),
        forall|k: F| #[trigger] EF::zero_spec().scale_spec(k) == EF::zero_spec(),
{
    field::lemma_mul_zero(a.c0);
    field::lemma_mul_zero(a.c1);
    field::lemma_mul_zero(a.c2);
    field::lemma_mul_zero(a.c3);
    field::lemma_mul_zero(a.c4);
    assert forall|k: F| #[trigger] EF::zero_spec().scale_spec(k) == EF::zero_spec() by {
        field::lemma_mul_zero(k);
    }
}

pub proof fn lemma_mul_zero(a: EF)
    ensures
        a * EF::zero_spec() == EF::zero_spec(),
        EF::zero_spec() * a == EF::zero_spec(),
{
    let z = EF::zero_spec();
    let a1 = a.shift_spec();
    let a2 = a1.shift_spec();
    let a3 = a2.shift_spec();
    let a4 = a3.shift_spec();
    lemma_scale_zero(a);
    lemma_scale_zero(a1);
    lemma_scale_zero(a2);
    lemma_scale_zero(a3);
    lemma_scale_zero(a4);
    lemma_constants_canonical();
    lemma_add_zero(z);
    field::lemma_sub_self(F::zero_spec());
    assert(z.shift_spec() == z);
}

/// Scaling is multiplication by an element of the base field.
pub proof fn lemma_scale_is_mul(a: EF, k: F)
    ensures
        a * EF::from_base_spec(k) == a.scale_spec(k),
{
    let a1 = a.shift_spec();
    let a2 = a1.shift_spec();
    let a3 = a2.shift_spec();
    let a4 = a3.shift_spec();
    lemma_scale_zero(a1);
    lemma_scale_zero(a2);
    lemma_scale_zero(a3);
    lemma_scale_zero(a4);
    lemma_scale_canonical(a, k);
    lemma_add_zero(a.scale_spec(k));
}

pub proof fn lemma_from_base_canonical(a: F)
    requires
        a.canonical(),
    ensures
        EF::from_base_spec(a).canonical(),
{
    field::lemma_of_val(0);
}

/// The base field is a subring of the extension.
pub proof fn lemma_from_base_ring(a: F, b: F)
    ensures
        EF::from_base_spec(a) + EF::from_base_spec(b) == EF::from_base_spec(a + b),
        EF::from_base_spec(a) - EF::from_base_spec(b) == EF::from_base_spec(a - b),
        EF::from_base_spec(a) * EF::from_base_spec(b) == EF::from_base_spec(a * b),
        EF::from_base_spec(a).scale_spec(b) == EF::from_base_spec(a * b),
{
    lemma_constants_canonical();
    field::lemma_add_zero(F::zero_spec());
    field::lemma_sub_self(F::zero_spec());
    field::lemma_mul_zero(b);
    lemma_scale_is_mul(EF::from_base_spec(a), b);
}

pub proof fn lemma_mul_distrib_sub_left(a: EF, b: EF, c: EF)
    ensures
        (a - b) * c == a * c - b * c,
{
    lemma_sub_is_add_neg(a, b);
    lemma_mul_distrib_left(a, b.negate_spec(), c);
    lemma_negate_mul_left(b, c);
    lemma_sub_is_add_neg(a * c, b * c);
}

pub proof fn lemma_mul_distrib_sub_right(a: EF, b: EF, c: EF)
    ensures
        a * (b - c) == a * b - a * c,
{
    lemma_sub_is_add_neg(b, c);
    lemma_mul_distrib_right(a, b, c.negate_spec());
    lemma_negate_mul_right(a, c);
    lemma_sub_is_add_neg(a * b, a * c);
}

/// The negative is the multiple by minus one.
pub proof fn lemma_negate_is_scale(a: EF)
    ensures
        a.negate_spec() == a.scale_spec(F::of(-1)),
{
    field::lemma_negate_is_mul(a.c0);
    field::lemma_negate_is_mul(a.c1);
    field::lemma_negate_is_mul(a.c2);
    field::lemma_negate_is_mul(a.c3);
    field::lemma_negate_is_mul(a.c4);
}

pub proof fn lemma_negate_mul_left(a: EF, b: EF)
    ensures
        a.negate_spec() * b == (a * b).negate_spec(),
{
    lemma_negate_is_scale(a);
    lemma_negate_is_scale(a * b);
    lemma_mul_scale_left(a, b, F::of(-1));
}

pub proof fn lemma_negate_mul_right(a: EF, b: EF)
    ensures
        a * b.negate_spec() == (a * b).negate_spec(),
{
    lemma_negate_is_scale(b);
    lemma_negate_is_scale(a * b);
    lemma_mul_scale_right(a, b, F::of(-1));
}

/// The negative of a sum.
pub proof fn lemma_negate_add(a: EF, b: EF)
    ensures
        (a + b).negate_spec() == a.negate_spec() + b.negate_spec(),
{
    lemma_negate_is_scale(a + b);
    lemma_negate_is_scale(a);
    lemma_negate_is_scale(b);
    lemma_scale_add(a, b, F::of(-1));
}

pub proof fn lemma_negate_add_self(a: EF)
    ensures
        a.negate_spec() + a == EF::zero_spec(),
{
    field::lemma_negate_add_self(a.c0);
    field::lemma_negate_add_self(a.c1);
    field::lemma_negate_add_self(a.c2);
    field::lemma_negate_add_self(a.c3);
    field::lemma_negate_add_self(a.c4);
}

pub proof fn lemma_negate_scale(a: EF, k: F)
    ensures
        a.negate_spec().scale_spec(k) == a.scale_spec(k).negate_spec(),
{
    lemma_negate_is_scale(a);
    lemma_negate_is_scale(a.scale_spec(k));
    lemma_scale_scale(a, F::of(-1), k);
    lemma_scale_scale(a, k, F::of(-1));
    field::lemma_mul_comm(F::of(-1), k);
}

/// A difference is zero only of equal elements.
pub proof fn lemma_sub_zero_iff(a: EF, b: EF)
    requires
        a.canonical(),
        b.canonical(),
    ensures
        a - b == EF::zero_spec() <==> a == b,
{
    field::lemma_sub_zero_iff(a.c0, b.c0);
    field::lemma_sub_zero_iff(a.c1, b.c1);
    field::lemma_sub_zero_iff(a.c2, b.c2);
    field::lemma_sub_zero_iff(a.c3, b.c3);
    field::lemma_sub_zero_iff(a.c4, b.c4);
}

/// `a - b + b` is `a`.
pub proof fn lemma_sub_add_cancel(a: EF, b: EF)
    requires
        a.canonical(),
    ensures
        (a - b) + b == a,
        (a + b) - b == a,
{
    field::lemma_sub_add_cancel(a.c0, b.c0);
    field::lemma_sub_add_cancel(a.c1, b.c1);
    field::lemma_sub_add_cancel(a.c2, b.c2);
    field::lemma_sub_add_cancel(a.c3, b.c3);
    field::lemma_sub_add_cancel(a.c4, b.c4);
}

/// `(a + b) - (c + d)` as the sum of the differences.
pub proof fn lemma_sub_exchange(a: EF, b: EF, c: EF, d: EF)
    ensures
        (a + b) - (c + d) == (a - c) + (b - d),
{
    field::lemma_sub_exchange(a.c0, b.c0, c.c0, d.c0);
    field::lemma_sub_exchange(a.c1, b.c1, c.c1, d.c1);
    field::lemma_sub_exchange(a.c2, b.c2, c.c2, d.c2);
    field::lemma_sub_exchange(a.c3, b.c3, c.c3, d.c3);
    field::lemma_sub_exchange(a.c4, b.c4, c.c4, d.c4);
}

pub proof fn lemma_pow_canonical(a: EF, n: nat)
    ensures
        a.pow(n).canonical(),
{
    lemma_constants_canonical();
    if n > 0 {
        lemma_mul_canonical(a.pow((n - 1) as nat), a);
    }
}

pub proof fn lemma_pow_add(a: EF, m: nat, n: nat)
    ensures
        a.pow(m + n) == a.pow(m) * a.pow(n),
    decreases n,
{
    if n == 0 {
        lemma_pow_canonical(a, m);
        lemma_mul_one(a.pow(m));
    } else {
        lemma_pow_add(a, m, (n - 1) as nat);
        assert((m + n - 1) as nat == m + (n - 1) as nat);
        lemma_mul_assoc(a.pow(m), a.pow((n - 1) as nat), a);
    }
}

pub proof fn lemma_pow_mul(a: EF, m: nat, n: nat)
    ensures
        a.pow(m * n) == a.pow(m).pow(n),
    decreases n,
{
    if n == 0 {
        assert(m * n == 0) by (nonlinear_arith)
            requires
                n == 0,
        ;
    } else {
        lemma_pow_mul(a, m, (n - 1) as nat);
        assert(m * n == m * ((n - 1) as nat) + m) by (nonlinear_arith)
            requires
                n >= 1,
        ;
        lemma_pow_add(a, m * ((n - 1) as nat), m);
    }
}

/// Powers of a scaled element.
pub proof fn lemma_pow_scale(a: EF, k: F, n: nat)
    ensures
        a.scale_spec(k).pow(n) == a.pow(n).scale_spec(k.pow(n)),
    decreases n,
{
    if n == 0 {
        lemma_constants_canonical();
        field::lemma_mul_one(F::one_spec());
        field::lemma_mul_zero(F::one_spec());
    } else {
        let m: nat = (n - 1) as nat;
        lemma_pow_scale(a, k, m);
        lemma_mul_scale_right(a.pow(m).scale_spec(k.pow(m)), a, k);
        lemma_mul_scale_left(a.pow(m), a, k.pow(m));
        lemma_scale_scale(a.pow(m) * a, k.pow(m), k);
    }
}

pub proof fn lemma_from_base_pow(z: F, n: nat)
    ensures
        EF::from_base_spec(z).pow(n) == EF::from_base_spec(z.pow(n)),
    decreases n,
{
    if n > 0 {
        lemma_from_base_pow(z, (n - 1) as nat);
        lemma_from_base_ring(z.pow((n - 1) as nat), z);
    }
}

/// Multiplying by `X` moves the coefficients up.
proof fn lemma_times_x(b: EF)
    requires
        b.canonical(),
    ensures
        EF::basis_spec(1) * b == b.shift_spec(),
        b * EF::basis_spec(1) == b.shift_spec(),
{
    let one = EF::one_spec();
    lemma_constants_canonical();
    field::lemma_of_val(0);
    field::lemma_sub_zero_canonical(F::zero_spec());
    assert(one.shift_spec() == EF::basis_spec(1));
    lemma_mul_shift_left(one, b);
    lemma_one_mul(b);
    lemma_mul_comm(EF::basis_spec(1), b);
}

/// The field is that of the polynomials in `X` modulo `X^5 + X^2 - 1`: the elements of the basis are the
/// powers of `X`, an element is the sum of its coefficients with them, and `X^5` is `1 - X^2`.
pub proof fn law_extension_is_quintic(a: EF)
    requires
        a.canonical(),
    ensures
        forall|i: int| 0 <= i < 5 ==> #[trigger] EF::basis_spec(i) == EF::basis_spec(1).pow(i as nat),
        EF::basis_spec(1).pow(5) == EF::one_spec() - EF::basis_spec(1).pow(2),
        a == EF::from_base_spec(a.c0) + EF::from_base_spec(a.c1) * EF::basis_spec(1) + EF::from_base_spec(a.c2)
            * EF::basis_spec(1).pow(2) + EF::from_base_spec(a.c3) * EF::basis_spec(1).pow(3) + EF::from_base_spec(
            a.c4,
        ) * EF::basis_spec(1).pow(4),
{
    let x = EF::basis_spec(1);
    let z = F::zero_spec();
    let one = F::one_spec();
    lemma_constants_canonical();
    field::lemma_of_val(0);
    field::lemma_of_val(1);
    field::lemma_sub_zero_canonical(z);
    field::lemma_sub_zero_canonical(one);
    reveal_with_fuel(EF::pow, 6);
    assert(x.pow(0) == EF::one_spec());
    lemma_one_mul(x);
    assert(x.pow(1) == x);
    lemma_times_x(x);
    assert(x.pow(2) == EF::basis_spec(2));
    lemma_times_x(EF::basis_spec(2));
    assert(x.pow(3) == EF::basis_spec(3));
    lemma_times_x(EF::basis_spec(3));
    assert(x.pow(4) == EF::basis_spec(4));
    lemma_times_x(EF::basis_spec(4));
    assert(x.pow(5) == EF::one_spec() - x.pow(2));
    assert forall|i: int| 0 <= i < 5 implies #[trigger] EF::basis_spec(i) == x.pow(i as nat) by {
        if i == 0 {
            assert(EF::basis_spec(0) == EF::one_spec());
        }
    }
    lemma_base_times(a.c1, x);
    lemma_base_times(a.c2, x.pow(2));
    lemma_base_times(a.c3, x.pow(3));
    lemma_base_times(a.c4, x.pow(4));
    lemma_unit_scale(a.c1, 1);
    lemma_unit_scale(a.c2, 2);
    lemma_unit_scale(a.c3, 3);
    lemma_unit_scale(a.c4, 4);
    field::lemma_add_zero(z);
    field::lemma_add_zero(a.c0);
    field::lemma_add_zero(a.c1);
    field::lemma_add_zero(a.c2);
    field::lemma_add_zero(a.c3);
    field::lemma_add_zero(a.c4);
}

proof fn lemma_base_times(k: F, b: EF)
    ensures
        EF::from_base_spec(k) * b == b.scale_spec(k),
{
    lemma_scale_is_mul(b, k);
    lemma_mul_comm(EF::from_base_spec(k), b);
}

/// A multiple of an element of the basis.
proof fn lemma_unit_scale(k: F, i: int)
    requires
        k.canonical(),
        0 <= i < 5,
    ensures
        EF::basis_spec(i).scale_spec(k) == (EF {
            c0: if i == 0 { k } else { F::zero_spec() },
            c1: if i == 1 { k } else { F::zero_spec() },
            c2: if i == 2 { k } else { F::zero_spec() },
            c3: if i == 3 { k } else { F::zero_spec() },
            c4: if i == 4 { k } else { F::zero_spec() },
        }),
{
    field::lemma_mul_one(k);
    field::lemma_mul_comm(F::one_spec(), k);
    field::lemma_mul_zero(k);
}

} // verus!
