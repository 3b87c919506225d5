//! The prime field of order `2^31 - 2^24 + 1`.
use vstd::arithmetic::div_mod::*;
use vstd::arithmetic::mul::*;
use vstd::prelude::*;

verus! {

/// The modulus `2^31 - 2^24 + 1` of the base field.
pub const MODULUS: u32 = 2130706433;

/// The largest `k` for which `2^k` divides `MODULUS - 1`.
pub const TWO_ADICITY: usize = 24;

/// A generator of the subgroup of order `2^TWO_ADICITY`.
pub const TWO_ADIC_ROOT: u32 = 1791270792;

/// An element of the prime field of order [`MODULUS`], held as its canonical representative.
#[derive(Clone, Copy, Debug, PartialEq, Eq, Structural)]
pub struct F {
    value: u32,
}

impl F {
    #[verifier::type_invariant]
    spec fn canonical_value(self) -> bool {
        self.value < MODULUS
    }

    /// The representative that the element holds.
    pub closed spec fn val(self) -> int {
        self.value as int
    }

    /// The element that an integer stands for.
    pub closed spec fn of(x: int) -> F {
        F { value: (x % (MODULUS as int)) as u32 }
    }

    /// Whether the representative is the canonical one, which holds of every value at run time.
    pub open spec fn canonical(self) -> bool {
        self.val() < MODULUS
    }

    pub open spec fn spec_add(self, rhs: F) -> F {
        F::of(self.val() + rhs.val())
    }

    pub open spec fn spec_sub(self, rhs: F) -> F {
        F::of(self.val() - rhs.val())
    }

    pub open spec fn spec_mul(self, rhs: F) -> F {
        F::of(self.val() * rhs.val())
    }

    pub open spec fn negate_spec(self) -> F {
        F::of(-self.val())
    }

    /// The zero of the field.
    pub open spec fn zero_spec() -> F {
        F::of(0)
    }

    /// The one of the field.
    pub open spec fn one_spec() -> F {
        F::of(1)
    }

    /// The `n`-th power.
    pub open spec fn pow(self, n: nat) -> F
        decreases n,
    {
        if n == 0 {
            F::of(1)
        } else {
            self.pow((n - 1) as nat) * self
        }
    }

    /// The generator of the subgroup of order `2^bits`, for `bits` up to [`TWO_ADICITY`].
    pub open spec fn root(bits: nat) -> F
        decreases TWO_ADICITY - bits,
    {
        if bits >= TWO_ADICITY {
            F::of(TWO_ADIC_ROOT as int)
        } else {
            F::root(bits + 1) * F::root(bits + 1)
        }
    }

    /// The zero of the field.
    pub fn zero() -> (r: F)
        ensures
            r == F::zero_spec(),
    {
        F { value: 0 }
    }

    /// The one of the field.
    pub fn one() -> (r: F)
        ensures
            r == F::one_spec(),
    {
        F { value: 1 }
    }

    /// The element that `x` stands for.
    pub fn new(x: u32) -> (r: F)
        ensures
            r == F::of(x as int),
    {
        F { value: x % MODULUS }
    }

    /// The element that `x` stands for.
    pub fn from_u64(x: u64) -> (r: F)
        ensures
            r == F::of(x as int),
    {
        F { value: (x % (MODULUS as u64)) as u32 }
    }

    /// The element that `x` stands for.
    pub fn from_usize(x: usize) -> (r: F)
        ensures
            r == F::of(x as int),
    {
        F { value: (x as u64 % (MODULUS as u64)) as u32 }
    }

    /// The element that a sum of products of representatives stands for.
    pub fn reduce_product_sum(x: u128) -> (r: F)
        ensures
            r == F::of(x as int),
    {
        F { value: (x % (MODULUS as u128)) as u32 }
    }

    /// The element that a sum of products of differences of representatives stands for.
    pub fn reduce_signed_product_sum(x: i128) -> (r: F)
        requires
            x > i128::MIN,
        ensures
            r == F::of(x as int),
    {
        if x >= 0 {
            F::reduce_product_sum(x as u128)
        } else {
            let positive = F::reduce_product_sum((-x) as u128);
            proof {
                lemma_sub_mod_noop(0, -(x as int), MODULUS as int);
                lemma_small_mod(0, MODULUS as nat);
            }
            positive.negate()
        }
    }

    /// The canonical representative.
    pub fn as_u32(self) -> (r: u32)
        ensures
            r == self.val(),
            self.canonical(),
    {
        proof {
            use_type_invariant(&self);
        }
        self.value
    }

    /// The sum.
    pub fn add(self, rhs: F) -> (r: F)
        ensures
            r == self + rhs,
    {
        proof {
            use_type_invariant(&self);
            use_type_invariant(&rhs);
        }
        F { value: (self.value + rhs.value) % MODULUS }
    }

    /// The difference.
    pub fn sub(self, rhs: F) -> (r: F)
        ensures
            r == self - rhs,
    {
        proof {
            use_type_invariant(&self);
            use_type_invariant(&rhs);
            lemma_mod_add_multiples_vanish(self.value - rhs.value, MODULUS as int);
        }
        F { value: (self.value + (MODULUS - rhs.value)) % MODULUS }
    }

    /// The product.
    pub fn mul(self, rhs: F) -> (r: F)
        ensures
            r == self * rhs,
    {
        proof {
            assert(self.value * rhs.value <= u32::MAX * u32::MAX) by (nonlinear_arith)
                requires
                    self.value <= u32::MAX,
                    rhs.value <= u32::MAX,
            ;
        }
        F { value: (self.value as u64 * rhs.value as u64 % (MODULUS as u64)) as u32 }
    }

    /// The negative.
    pub fn negate(self) -> (r: F)
        ensures
            r == self.negate_spec(),
    {
        proof {
            use_type_invariant(&self);
            lemma_mod_add_multiples_vanish(-(self.value as int), MODULUS as int);
        }
        F { value: (MODULUS - self.value) % MODULUS }
    }

    /// The third power.
    pub fn cube(self) -> (r: F)
        ensures
            r == self * self * self,
    {
        self.mul(self).mul(self)
    }
}

/// The representative of `F::of(x)` is `x` reduced by the modulus.
pub broadcast proof fn lemma_of_val(x: int)
    ensures
        #[trigger] F::of(x).val() == x % (MODULUS as int),
        F::of(x).canonical(),
{
}

/// Representatives are not negative.
pub broadcast proof fn lemma_val_nonneg(a: F)
    ensures
        0 <= #[trigger] a.val(),
{
}

/// Elements with the same representative are equal.
pub proof fn lemma_val_injective(a: F, b: F)
    requires
        a.val() == b.val(),
    ensures
        a == b,
{
}

/// A canonical element is the one that its representative stands for.
pub broadcast proof fn lemma_of_canonical(a: F)
    requires
        a.canonical(),
    ensures
        #[trigger] F::of(a.val()) == a,
{
}

/// Integers that stand for the same element are congruent.
pub proof fn lemma_congruent_of(x: int, y: int)
    requires
        F::of(x) == F::of(y),
    ensures
        (x - y) % (MODULUS as int) == 0,
{
    lemma_of_val(x);
    lemma_of_val(y);
    lemma_mod_equivalence(x, y, MODULUS as int);
}

/// A representative differs from the integer it was reduced from by a multiple of the modulus.
pub proof fn lemma_of_quotient(x: int) -> (k: int)
    ensures
        F::of(x).val() == x + k * (MODULUS as int),
{
    lemma_fundamental_div_mod(x, MODULUS as int);
    let k: int = -(x / (MODULUS as int));
    assert(x % (MODULUS as int) == x + k * (MODULUS as int)) by (nonlinear_arith)
        requires
            x == (MODULUS as int) * (x / (MODULUS as int)) + x % (MODULUS as int),
            k == -(x / (MODULUS as int)),
    ;
    k
}

/// Integers that differ by a multiple of the modulus stand for the same element.
pub proof fn lemma_of_shift(x: int, k: int)
    ensures
        F::of(x + k * (MODULUS as int)) == F::of(x),
{
    assert((x + k * (MODULUS as int)) % (MODULUS as int) == x % (MODULUS as int)) by {
        lemma_mod_multiples_vanish(k, x, MODULUS as int);
        lemma_mul_is_commutative(k, MODULUS as int);
    }
}

pub proof fn lemma_of_add(x: int, y: int)
    ensures
        F::of(x) + F::of(y) == F::of(x + y),
{
    lemma_add_mod_noop(x, y, MODULUS as int);
}

pub proof fn lemma_of_sub(x: int, y: int)
    ensures
        F::of(x) - F::of(y) == F::of(x - y),
{
    lemma_sub_mod_noop(x, y, MODULUS as int);
}

pub proof fn lemma_of_mul(x: int, y: int)
    ensures
        F::of(x) * F::of(y) == F::of(x * y),
{
    lemma_mul_mod_noop(x, y, MODULUS as int);
}

pub proof fn lemma_add_comm(a: F, b: F)
    ensures
        a + b == b + a,
{
}

pub proof fn lemma_add_assoc(a: F, b: F, c: F)
    ensures
        (a + b) + c == a + (b + c),
{
    lemma_add_mod_noop(a.val() + b.val(), c.val(), MODULUS as int);
    lemma_add_mod_noop(a.val(), b.val() + c.val(), MODULUS as int);
    lemma_add_mod_noop((a + b).val(), c.val(), MODULUS as int);
    lemma_add_mod_noop(a.val(), (b + c).val(), MODULUS as int);
    lemma_mod_twice(a.val() + b.val(), MODULUS as int);
    lemma_mod_twice(b.val() + c.val(), MODULUS as int);
}

pub proof fn lemma_mul_comm(a: F, b: F)
    ensures
        a * b == b * a,
{
    lemma_mul_is_commutative(a.val(), b.val());
}

pub proof fn lemma_mul_assoc(a: F, b: F, c: F)
    ensures
        (a * b) * c == a * (b * c),
{
    lemma_mul_mod_noop_left(a.val() * b.val(), c.val(), MODULUS as int);
    lemma_mul_mod_noop_right(a.val(), b.val() * c.val(), MODULUS as int);
    lemma_mul_is_associative(a.val(), b.val(), c.val());
}

pub proof fn lemma_mul_distrib(a: F, b: F, c: F)
    ensures
        a * (b + c) == a * b + a * c,
        (b + c) * a == b * a + c * a,
{
    lemma_mul_mod_noop_right(a.val(), b.val() + c.val(), MODULUS as int);
    lemma_mul_is_distributive_add(a.val(), b.val(), c.val());
    lemma_of_add(a.val() * b.val(), a.val() * c.val());
    lemma_mul_comm(a, b + c);
    lemma_mul_comm(a, b);
    lemma_mul_comm(a, c);
}

pub proof fn lemma_mul_one(a: F)
    requires
        a.canonical(),
    ensures
        a * F::one_spec() == a,
        F::one_spec() * a == a,
{
    lemma_of_val(1);
    lemma_small_mod(1, MODULUS as nat);
    assert(a.val() * 1 == a.val());
    assert(1 * a.val() == a.val());
    lemma_of_canonical(a);
}

pub proof fn lemma_add_zero(a: F)
    requires
        a.canonical(),
    ensures
        a + F::zero_spec() == a,
        F::zero_spec() + a == a,
{
    lemma_of_val(0);
    lemma_of_canonical(a);
}

pub proof fn lemma_mul_zero(a: F)
    ensures
        a * F::zero_spec() == F::zero_spec(),
        F::zero_spec() * a == F::zero_spec(),
{
    lemma_of_val(0);
    assert(a.val() * 0 == 0);
    assert(0 * a.val() == 0);
}

pub proof fn lemma_sub_self(a: F)
    ensures
        a - a == F::zero_spec(),
{
}

pub proof fn lemma_sub_is_add_neg(a: F, b: F)
    ensures
        a - b == a + b.negate_spec(),
{
    lemma_add_mod_noop_right(a.val(), -b.val(), MODULUS as int);
}

pub proof fn lemma_sub_zero_canonical(a: F)
    requires
        a.canonical(),
    ensures
        a - F::zero_spec() == a,
{
    lemma_of_val(0);
    lemma_of_canonical(a);
}

pub proof fn lemma_mul_distrib_sub_left(a: F, b: F, k: F)
    ensures
        (a - b) * k == a * k - b * k,
{
    lemma_mul_comm(a - b, k);
    lemma_mul_distrib_sub(k, a, b);
    lemma_mul_comm(a, k);
    lemma_mul_comm(b, k);
}

/// `(a + b) - (c + d)` as the sum of the differences.
pub proof fn lemma_sub_exchange(a: F, b: F, c: F, d: F)
    ensures
        (a + b) - (c + d) == (a - c) + (b - d),
{
    let m: int = MODULUS as int;
    lemma_sub_mod_noop(a.val() + b.val(), c.val() + d.val(), m);
    lemma_add_mod_noop(a.val() - c.val(), b.val() - d.val(), m);
}

/// `y0 + x0 + (x1 - y2) + x2 + x3` with the terms in another order.
pub proof fn lemma_shift_rearrange(y0: F, x0: F, x1: F, y2: F, x2: F, x3: F)
    ensures
        y0 + x0 + (x1 - y2) + x2 + x3 == x0 + x1 + x2 + x3 + (y0 - y2),
{
    let k1 = lemma_of_quotient(y0.val() + x0.val());
    let k2 = lemma_of_quotient(x1.val() - y2.val());
    let k3 = lemma_of_quotient((y0 + x0).val() + (x1 - y2).val());
    let k4 = lemma_of_quotient((y0 + x0 + (x1 - y2)).val() + x2.val());
    let l1 = lemma_of_quotient(x0.val() + x1.val());
    let l2 = lemma_of_quotient((x0 + x1).val() + x2.val());
    let l3 = lemma_of_quotient((x0 + x1 + x2).val() + x3.val());
    let l4 = lemma_of_quotient(y0.val() - y2.val());
    let m: int = MODULUS as int;
    let s: int = y0.val() + x0.val() + x1.val() - y2.val() + x2.val() + x3.val();
    assert((k1 + k2 + k3 + k4) * m == k1 * m + k2 * m + k3 * m + k4 * m) by (nonlinear_arith);
    assert((l1 + l2 + l3 + l4) * m == l1 * m + l2 * m + l3 * m + l4 * m) by (nonlinear_arith);
    lemma_of_shift(s, k1 + k2 + k3 + k4);
    lemma_of_shift(s, l1 + l2 + l3 + l4);
}

/// The five sums in which one term of five is not zero.
pub proof fn lemma_unit_row(b0: F, b1: F, b2: F, b3: F, b4: F)
    requires
        b0.canonical(),
        b1.canonical(),
        b2.canonical(),
        b3.canonical(),
        b4.canonical(),
    ensures
        ({
            let z = F::zero_spec();
            &&& b0 + z + z + z + z == b0
            &&& z + b1 + z + z + z == b1
            &&& z + z + b2 + z + z == b2
            &&& z + z + z + b3 + z == b3
            &&& z + z + z + z + b4 == b4
        }),
{
    let z = F::zero_spec();
    lemma_of_val(0);
    lemma_add_zero(z);
    lemma_add_zero(b0);
    lemma_add_zero(b1);
    lemma_add_zero(b2);
    lemma_add_zero(b3);
    lemma_add_zero(b4);
}

pub proof fn lemma_negate_is_mul(a: F)
    ensures
        a.negate_spec() == a * F::of(-1),
{
    lemma_mul_mod_noop_right(a.val(), -1, MODULUS as int);
}

pub proof fn lemma_sub_zero_iff(a: F, b: F)
    requires
        a.canonical(),
        b.canonical(),
    ensures
        a - b == F::zero_spec() <==> a == b,
{
    broadcast use lemma_val_nonneg;

    if a - b == F::zero_spec() {
        lemma_congruent_of(a.val() - b.val(), 0);
        let d: int = a.val() - b.val();
        lemma_fundamental_div_mod(d, MODULUS as int);
        assert(d == 0) by (nonlinear_arith)
            requires
                d == (MODULUS as int) * (d / (MODULUS as int)),
                -(MODULUS as int) < d < MODULUS,
        ;
        lemma_val_injective(a, b);
    }
}

pub proof fn lemma_sub_add_cancel(a: F, b: F)
    requires
        a.canonical(),
    ensures
        (a - b) + b == a,
        (a + b) - b == a,
{
    lemma_add_mod_noop(a.val() - b.val(), b.val(), MODULUS as int);
    lemma_add_mod_noop((a - b).val(), b.val(), MODULUS as int);
    lemma_sub_mod_noop(a.val() + b.val(), b.val(), MODULUS as int);
    lemma_sub_mod_noop((a + b).val(), b.val(), MODULUS as int);
    lemma_mod_twice(a.val() - b.val(), MODULUS as int);
    lemma_mod_twice(a.val() + b.val(), MODULUS as int);
    lemma_of_canonical(a);
}

pub proof fn lemma_negate_add_self(a: F)
    ensures
        a.negate_spec() + a == F::zero_spec(),
{
    lemma_add_mod_noop(-a.val(), a.val(), MODULUS as int);
    lemma_add_mod_noop(-a.val() % (MODULUS as int), a.val(), MODULUS as int);
    lemma_mod_twice(-a.val(), MODULUS as int);
}

/// `a + a * (-1)` is zero.
pub proof fn lemma_negate_one_mul(a: F)
    requires
        a.canonical(),
    ensures
        a + a * F::one_spec().negate_spec() == F::zero_spec(),
{
    lemma_negate_is_mul(F::one_spec());
    lemma_of_mul(1, -1);
    lemma_negate_is_mul(a);
    lemma_negate_add_self(a);
    lemma_add_comm(a, a.negate_spec());
}

/// One step of the extended Euclidean algorithm.
pub proof fn lemma_mul_step(a: F, t0: F, t1: F, q: int, r0: int, r1: int)
    requires
        a * t0 == F::of(r0),
        a * t1 == F::of(r1),
    ensures
        a * (t0 - F::of(q) * t1) == F::of(r0 - q * r1),
{
    lemma_mul_distrib_sub(a, t0, F::of(q) * t1);
    lemma_mul_assoc(a, F::of(q), t1);
    lemma_mul_comm(a, F::of(q));
    lemma_mul_assoc(F::of(q), a, t1);
    lemma_of_mul(q, r1);
    lemma_of_sub(r0, q * r1);
}

pub proof fn lemma_mul_distrib_sub(a: F, b: F, c: F)
    ensures
        a * (b - c) == a * b - a * c,
{
    lemma_mul_mod_noop_right(a.val(), b.val() - c.val(), MODULUS as int);
    lemma_mul_is_distributive_sub(a.val(), b.val(), c.val());
    lemma_of_sub(a.val() * b.val(), a.val() * c.val());
}

pub proof fn lemma_pow_add(a: F, m: nat, n: nat)
    ensures
        a.pow(m + n) == a.pow(m) * a.pow(n),
    decreases n,
{
    if n == 0 {
        lemma_pow_canonical(a, m);
        lemma_mul_one(a.pow(m));
    } else {
        lemma_pow_add(a, m, (n - 1) as nat);
        assert((m + n - 1) as nat == m + (n - 1) as nat);
        lemma_mul_assoc(a.pow(m), a.pow((n - 1) as nat), a);
    }
}

pub broadcast proof fn lemma_pow_canonical(a: F, n: nat)
    ensures
        (#[trigger] a.pow(n)).canonical(),
{
    if n == 0 {
        lemma_of_val(1);
    } else {
        lemma_of_val(a.pow((n - 1) as nat).val() * a.val());
    }
}

pub proof fn lemma_pow_mul(a: F, m: nat, n: nat)
    ensures
        a.pow(m * n) == a.pow(m).pow(n),
    decreases n,
{
    if n == 0 {
        assert(m * n == 0);
    } else {
        lemma_pow_mul(a, m, (n - 1) as nat);
        assert(m * n == m * ((n - 1) as nat) + m) by (nonlinear_arith)
            requires
                n >= 1,
        ;
        lemma_pow_add(a, m * ((n - 1) as nat), m);
    }
}

pub proof fn lemma_pow_one(n: nat)
    ensures
        F::of(1).pow(n) == F::of(1),
    decreases n,
{
    if n > 0 {
        lemma_pow_one((n - 1) as nat);
        lemma_of_mul(1, 1);
    }
}

/// Powers of the element that an integer stands for.
pub proof fn lemma_of_pow(x: int, n: nat)
    ensures
        F::of(x).pow(n) == F::of(vstd::arithmetic::power::pow(x, n)),
    decreases n,
{
    reveal(vstd::arithmetic::power::pow);
    if n > 0 {
        lemma_of_pow(x, (n - 1) as nat);
        lemma_of_mul(vstd::arithmetic::power::pow(x, (n - 1) as nat), x);
        lemma_mul_is_commutative(x, vstd::arithmetic::power::pow(x, (n - 1) as nat));
    }
}

} // verus!
