//! Roots of unity of two-power order, and inverses in the base field.
use crate::field;
use crate::field::{F, MODULUS};
use vstd::arithmetic::div_mod::*;
use vstd::arithmetic::mul::*;
use vstd::arithmetic::power::*;
use vstd::arithmetic::power2::*;
use vstd::prelude::*;
use vstd::set_lib::*;

verus! {

proof fn lemma_square(x: int, y: int)
    requires
        (x * x) % (MODULUS as int) == y,
    ensures
        F::of(x) * F::of(x) == F::of(y),
{
    field::lemma_of_mul(x, x);
    lemma_mod_twice(x * x, MODULUS as int);
    lemma_of_congruent_mod(x * x, y);
}

proof fn lemma_of_congruent_mod(x: int, y: int)
    requires
        x % (MODULUS as int) == y % (MODULUS as int),
    ensures
        F::of(x) == F::of(y),
{
    field::lemma_of_val(x);
    field::lemma_of_val(y);
    field::lemma_val_injective(F::of(x), F::of(y));
}

/// The root of order two is minus one.
pub proof fn lemma_root_one()
    ensures
        F::root(1) == F::of(-1),
        F::root(0) == F::of(1),
{
    reveal_with_fuel(F::root, 25);
    lemma_square(1791270792, 1760025929);
    lemma_square(1760025929, 542991299);
    lemma_square(542991299, 1213133211);
    lemma_square(1213133211, 1364057261);
    lemma_square(1364057261, 339671193);
    lemma_square(339671193, 1816824389);
    lemma_square(1816824389, 373019801);
    lemma_square(373019801, 1848593786);
    lemma_square(1848593786, 1168510561);
    lemma_square(1168510561, 1047035213);
    lemma_square(1047035213, 809067698);
    lemma_square(809067698, 1989134074);
    lemma_square(1989134074, 2000983452);
    lemma_square(2000983452, 860702919);
    lemma_square(860702919, 665670555);
    lemma_square(665670555, 392596362);
    lemma_square(392596362, 699882112);
    lemma_square(699882112, 1548376985);
    lemma_square(1548376985, 170455089);
    lemma_square(170455089, 148625052);
    lemma_square(148625052, 1748172362);
    lemma_square(1748172362, 2113994754);
    lemma_square(2113994754, 2130706432);
    lemma_square(2130706432, 1);
    lemma_of_congruent_mod(-1, 2130706432);
}

/// The root of order `2^bits` raised to half its order is minus one.
pub proof fn lemma_root_half(bits: nat)
    requires
        1 <= bits <= field::TWO_ADICITY,
    ensures
        F::root(bits).pow(pow2((bits - 1) as nat)) == F::of(-1),
    decreases bits,
{
    if bits == 1 {
        lemma_root_one();
        lemma2_to64();
        reveal_with_fuel(F::pow, 2);
        field::lemma_of_mul(1, -1);
    } else {
        let below: nat = (bits - 1) as nat;
        lemma_root_half(below);
        lemma_pow2_unfold(below);
        assert(F::root(below) == F::root(bits) * F::root(bits));
        assert(F::root(bits).pow(2) == F::root(bits) * F::root(bits)) by {
            reveal_with_fuel(F::pow, 3);
            lemma_root_canonical(bits);
            field::lemma_mul_one(F::root(bits));
        }
        field::lemma_pow_mul(F::root(bits), 2, pow2((below - 1) as nat));
    }
}

pub proof fn lemma_root_canonical(bits: nat)
    ensures
        F::root(bits).canonical(),
{
    field::lemma_of_val(field::TWO_ADIC_ROOT as int);
    field::lemma_of_val(F::root(bits + 1).val() * F::root(bits + 1).val());
}

/// The root of order `2^bits` raised to its order is one.
pub proof fn lemma_root_order(bits: nat)
    requires
        bits <= field::TWO_ADICITY,
    ensures
        F::root(bits).pow(pow2(bits)) == F::of(1),
{
    if bits == 0 {
        lemma_root_one();
        lemma2_to64();
        field::lemma_pow_one(1);
    } else {
        lemma_root_half(bits);
        lemma_pow2_unfold(bits);
        let half: nat = pow2((bits - 1) as nat);
        field::lemma_pow_add(F::root(bits), half, half);
        field::lemma_of_mul(-1, -1);
    }
}

/// Odd powers of minus one.
proof fn lemma_minus_one_odd(n: nat)
    requires
        n % 2 == 1,
    ensures
        F::of(-1).pow(n) == F::of(-1),
    decreases n,
{
    if n == 1 {
        reveal_with_fuel(F::pow, 2);
        field::lemma_of_mul(1, -1);
    } else {
        lemma_minus_one_odd((n - 2) as nat);
        reveal_with_fuel(F::pow, 3);
        field::lemma_of_mul(-1, -1);
        field::lemma_of_mul(1, -1);
    }
}

/// An element whose `2^(bits - 1)`-th power is minus one has no smaller power of its order that is
/// one: `a^(d * 2^s)` is not one while `0 < d * 2^s < 2^bits`.
proof fn lemma_order_exact(a: F, bits: nat, d: nat, s: nat)
    requires
        1 <= bits,
        a.pow(pow2((bits - 1) as nat)) == F::of(-1),
        0 < d * pow2(s) < pow2(bits),
    ensures
        a.pow(d * pow2(s)) != F::of(1),
    decreases d,
{
    if d == 0 {
        assert(d * pow2(s) == 0) by (nonlinear_arith)
            requires
                d == 0,
        ;
    } else if d % 2 == 0 {
        let e: nat = d / 2;
        lemma_pow2_unfold(s + 1);
        assert(e * pow2(s + 1) == d * pow2(s)) by (nonlinear_arith)
            requires
                d == 2 * e,
                pow2(s + 1) == 2 * pow2(s),
        ;
        lemma_order_exact(a, bits, e, s + 1);
    } else {
        if s >= bits {
            if s > bits {
                lemma_pow2_strictly_increases(bits, s);
            }
            assert(d * pow2(s) >= pow2(s)) by (nonlinear_arith)
                requires
                    d >= 1,
            ;
            assert(false);
        }
        if a.pow(d * pow2(s)) == F::of(1) {
            let rest: nat = (bits - 1 - s) as nat;
            field::lemma_pow_mul(a, d * pow2(s), pow2(rest));
            field::lemma_pow_one(pow2(rest));
            lemma_pow2_adds(s, rest);
            assert(s + rest == bits - 1);
            let top: nat = pow2((bits - 1) as nat);
            assert((d * pow2(s)) * pow2(rest) == top * d) by (nonlinear_arith)
                requires
                    pow2(s) * pow2(rest) == top,
            ;
            field::lemma_pow_mul(a, top, d);
            lemma_minus_one_odd(d);
            field::lemma_of_val(1);
            field::lemma_of_val(-1);
        }
    }
}

/// No power of the root of order `2^bits` below its order is one.
pub proof fn lemma_root_primitive(bits: nat, d: nat)
    requires
        bits <= field::TWO_ADICITY,
        0 < d < pow2(bits),
    ensures
        F::root(bits).pow(d) != F::of(1),
{
    lemma2_to64();
    if bits == 0 {
        assert(false);
    }
    lemma_root_half(bits);
    assert(d * 1 == d);
    lemma_order_exact(F::root(bits), bits, d, 0);
}

/// Neither a root of unity nor its square is zero.
pub proof fn lemma_root_primitive_nonzero(bits: nat)
    requires
        bits <= field::TWO_ADICITY,
    ensures
        F::root(bits) != F::zero_spec(),
        F::root(bits) * F::root(bits) != F::zero_spec(),
{
    let w = F::root(bits);
    let n: nat = pow2(bits);
    lemma_root_order(bits);
    lemma_root_canonical(bits);
    lemma_pow2_pos(bits);
    field::lemma_of_val(0);
    field::lemma_of_val(1);
    field::lemma_pow_add(w, n, n);
    field::lemma_of_mul(1, 1);
    // w^(2 n) is one, and has w * w as a factor.
    assert(w.pow(2 * n) == F::of(1));
    assert(w.pow(2 * n) == w.pow((2 * n - 1) as nat) * w);
    assert(w.pow((2 * n - 1) as nat) == w.pow((2 * n - 2) as nat) * w);
    field::lemma_mul_assoc(w.pow((2 * n - 2) as nat), w, w);
    field::lemma_mul_zero(w.pow((2 * n - 2) as nat));
    field::lemma_mul_zero(w);
}

proof fn lemma_mod_divisor(x: int, g: int)
    requires
        1 < g,
        (MODULUS as int) % g == 0,
    ensures
        (x % (MODULUS as int)) % g == x % g,
{
    let m: int = MODULUS as int;
    lemma_fundamental_div_mod(m, g);
    let k: int = m / g;
    assert(m == g * k);
    assert(k > 0) by (nonlinear_arith)
        requires
            m == g * k,
            m > 0,
            g > 1,
    ;
    lemma_mod_mod(x, g, k);
}

/// `b^n` and `1` agree modulo `g` only when a multiple of the two-power order divides `n`.
proof fn lemma_order_mod(b: int, g: int, bits: nat, d: nat, s: nat)
    requires
        2 < g,
        1 <= bits,
        pow(b, pow2((bits - 1) as nat)) % g == (-1int) % g,
        0 < d * pow2(s) < pow2(bits),
    ensures
        pow(b, d * pow2(s)) % g != 1,
    decreases d,
{
    if d == 0 {
        assert(d * pow2(s) == 0) by (nonlinear_arith)
            requires
                d == 0,
        ;
    } else if d % 2 == 0 {
        let e: nat = d / 2;
        lemma_pow2_unfold(s + 1);
        assert(e * pow2(s + 1) == d * pow2(s)) by (nonlinear_arith)
            requires
                d == 2 * e,
                pow2(s + 1) == 2 * pow2(s),
        ;
        lemma_order_mod(b, g, bits, e, s + 1);
    } else {
        if s >= bits {
            if s > bits {
                lemma_pow2_strictly_increases(bits, s);
            }
            assert(d * pow2(s) >= pow2(s)) by (nonlinear_arith)
                requires
                    d >= 1,
            ;
            assert(false);
        }
        if pow(b, d * pow2(s)) % g == 1 {
            let rest: nat = (bits - 1 - s) as nat;
            let top: nat = pow2((bits - 1) as nat);
            lemma_pow2_adds(s, rest);
            assert(s + rest == bits - 1);
            lemma_pow_multiplies(b, d * pow2(s), pow2(rest));
            lemma_pow_mod_noop(pow(b, d * pow2(s)), pow2(rest), g);
            lemma1_pow(pow2(rest));
            lemma_small_mod(1, g as nat);
            assert((d * pow2(s)) * pow2(rest) == top * d) by (nonlinear_arith)
                requires
                    pow2(s) * pow2(rest) == top,
            ;
            assert(pow(b, top * d) % g == 1);
            lemma_pow_multiplies(b, top, d);
            lemma_pow_mod_noop(pow(b, top), d, g);
            lemma_pow_mod_noop(-1, d, g);
            lemma_int_minus_one_odd(d);
            lemma_fundamental_div_mod_converse(-1, g, -1, g - 1);
            assert(false);
        }
    }
}

proof fn lemma_int_minus_one_odd(n: nat)
    requires
        n % 2 == 1,
    ensures
        pow(-1, n) == -1,
    decreases n,
{
    reveal(pow);
    if n == 1 {
        lemma_pow1(-1);
    } else {
        lemma_int_minus_one_odd((n - 2) as nat);
        assert(pow(-1, n) == -1 * pow(-1, (n - 1) as nat));
        assert(pow(-1, (n - 1) as nat) == -1 * pow(-1, (n - 2) as nat));
    }
}

/// Every divisor of the modulus above one exceeds `2^24`.
proof fn lemma_divisor_large(g: int)
    requires
        1 < g,
        (MODULUS as int) % g == 0,
    ensures
        g >= 16777216,
{
    let m: int = MODULUS as int;
    let b: int = field::TWO_ADIC_ROOT as int;
    lemma2_to64();
    if g == 2 {
        assert(m % 2 == 1);
        assert(false);
    }
    lemma_root_half(24);
    field::lemma_of_pow(b, pow2(23));
    field::lemma_congruent_of(pow(b, pow2(23)), -1);
    lemma_mod_equivalence(pow(b, pow2(23)), -1, m);
    lemma_mod_divisor(pow(b, pow2(23)), g);
    lemma_mod_divisor(-1, g);
    let n: int = 16777216;
    assert(pow2(24) == n);
    let f = |i: int| pow(b, i as nat) % g;
    let dom = set_int_range(0, n);
    let cod = set_int_range(0, g);
    lemma_int_range(0, n);
    lemma_int_range(0, g);
    // The inverse of b modulo g is b^(n - 1).
    assert(pow(b, pow2(24)) % g == 1) by {
        lemma_pow2_unfold(24);
        lemma_pow_adds(b, pow2(23), pow2(23));
        lemma_mul_mod_noop(pow(b, pow2(23)), pow(b, pow2(23)), g);
        lemma_mul_mod_noop(-1, -1, g);
        lemma_small_mod(1, g as nat);
    }
    assert forall|i: int, j: int| dom.contains(i) && dom.contains(j) && f(i) == f(j) implies i == j by {
        if i < j {
            lemma_powers_distinct(b, g, i as nat, j as nat);
        } else if j < i {
            lemma_powers_distinct(b, g, j as nat, i as nat);
        }
    }
    assert(vstd::relations::injective_on(f, dom));
    lemma_map_size(dom, dom.map(f), f);
    assert(dom.map(f).subset_of(cod)) by {
        assert forall|y: int| dom.map(f).contains(y) implies cod.contains(y) by {
            let i = choose|i: int| dom.contains(i) && f(i) == y;
            lemma_mod_bound(pow(b, i as nat), g);
        }
    }
    lemma_len_subset(dom.map(f), cod);
}

proof fn lemma_powers_distinct(b: int, g: int, i: nat, j: nat)
    requires
        2 < g,
        i < j < 16777216,
        pow(b, pow2(23)) % g == (-1int) % g,
        pow(b, pow2(24)) % g == 1,
    ensures
        pow(b, i) % g != pow(b, j) % g,
{
    lemma2_to64();
    let d: nat = (j - i) as nat;
    if pow(b, i) % g == pow(b, j) % g {
        // Multiply both by b^(n - i).
        let k: nat = (16777216 - i) as nat;
        lemma_pow_adds(b, i, k);
        lemma_pow_adds(b, j, k);
        assert(i + k == pow2(24));
        assert(j + k == pow2(24) + d);
        lemma_pow_adds(b, pow2(24), d);
        lemma_mul_mod_noop_left(pow(b, i), pow(b, k), g);
        lemma_mul_mod_noop_left(pow(b, j), pow(b, k), g);
        lemma_mul_mod_noop_left(pow(b, pow2(24)), pow(b, d), g);
        assert(pow(b, d) % g == 1);
        assert(d * 1 == d);
        lemma_order_mod(b, g, 24, d, 0);
    }
}

/// The modulus is prime.
pub proof fn lemma_modulus_prime(d: int)
    requires
        1 < d < MODULUS,
    ensures
        (MODULUS as int) % d != 0,
{
    let m: int = MODULUS as int;
    if m % d == 0 {
        lemma_fundamental_div_mod(m, d);
        let k: int = m / d;
        assert(m == d * k);
        assert(1 < k) by (nonlinear_arith)
            requires
                m == d * k,
                1 < d < m,
        ;
        lemma_fundamental_div_mod_converse(m, k, d, 0);
        lemma_divisor_large(d);
        lemma_divisor_large(k);
        assert(d * k >= 16777216 * 16777216) by (nonlinear_arith)
            requires
                d >= 16777216,
                k >= 16777216,
        ;
    }
}

/// The inverse that the extended Euclidean algorithm arrives at.
proof fn lemma_euclid(a: F, r0: int, r1: int, t0: F, t1: F) -> (b: F)
    requires
        a * t0 == F::of(r0),
        a * t1 == F::of(r1),
        0 <= r1 < r0 <= MODULUS,
        r1 == 0 ==> r0 < MODULUS,
        forall|d: int| d > 0 && #[trigger] (r0 % d) == 0 && r1 % d == 0 ==> (MODULUS as int) % d == 0,
    ensures
        a * b == F::one_spec(),
    decreases r1,
{
    if r1 == 0 {
        lemma_mod_self_0(r0);
        lemma_small_mod(0, r0 as nat);
        if r0 > 1 {
            lemma_modulus_prime(r0);
        }
        t0
    } else {
        let q: int = r0 / r1;
        let r2: int = r0 % r1;
        lemma_fundamental_div_mod(r0, r1);
        field::lemma_mul_step(a, t0, t1, q, r0, r1);
        lemma_mul_is_commutative(r1, q);
        lemma_mod_bound(r0, r1);
        assert forall|d: int| d > 0 && #[trigger] (r1 % d) == 0 && r2 % d == 0 implies (MODULUS as int) % d == 0 by {
            lemma_mul_mod_noop_left(r1, q, d);
            lemma_add_mod_noop(r1 * q, r2, d);
            assert(0int * q == 0);
            lemma_small_mod(0, d as nat);
            assert(r0 % d == 0);
        }
        lemma_euclid(a, r1, r2, t1, t0 - F::of(q) * t1)
    }
}

/// Every element other than zero has an inverse.
pub proof fn lemma_inverse_exists(a: F) -> (b: F)
    requires
        a.canonical(),
        a != F::zero_spec(),
    ensures
        a * b == F::one_spec(),
{
    broadcast use field::lemma_val_nonneg;

    field::lemma_of_canonical(a);
    field::lemma_mul_zero(a);
    field::lemma_mul_one(a);
    field::lemma_of_shift(0, 1);
    field::lemma_of_val(0);
    if a.val() == 0 {
        field::lemma_val_injective(a, F::zero_spec());
    }
    lemma_euclid(a, MODULUS as int, a.val(), F::zero_spec(), F::one_spec())
}

impl F {
    /// The multiplicative inverse of an element other than zero.
    pub fn inverse(self) -> (r: F)
        requires
            self != F::zero_spec(),
        ensures
            self * r == F::one_spec(),
    {
        let a: u32 = self.as_u32();
        let mut r0: u32 = MODULUS;
        let mut r1: u32 = a;
        let mut t0: F = F::zero();
        let mut t1: F = F::one();
        proof {
            field::lemma_of_canonical(self);
            field::lemma_mul_zero(self);
            field::lemma_mul_one(self);
            field::lemma_of_shift(0, 1);
            field::lemma_of_val(0);
            if a == 0 {
                field::lemma_val_injective(self, F::zero_spec());
            }
        }
        while r1 != 0
            invariant
                self * t0 == F::of(r0 as int),
                self * t1 == F::of(r1 as int),
                r1 < r0,
                r1 == 0 ==> r0 < MODULUS,
                r0 <= MODULUS,
                forall|d: int|
                    d > 0 && #[trigger] (r0 as int % d) == 0 && (r1 as int) % d == 0 ==> (MODULUS as int) % d == 0,
            decreases r1,
        {
            let q: u32 = r0 / r1;
            let r2: u32 = r0 % r1;
            let t2: F = t0.sub(F::new(q).mul(t1));
            proof {
                lemma_fundamental_div_mod(r0 as int, r1 as int);
                field::lemma_mul_step(self, t0, t1, q as int, r0 as int, r1 as int);
                assert(r0 - q * r1 == r2) by (nonlinear_arith)
                    requires
                        r0 == r1 * q + r2,
                ;
                assert forall|d: int| d > 0 && #[trigger] (r1 as int % d) == 0 && (r2 as int) % d == 0 implies (
                MODULUS as int) % d == 0 by {
                    lemma_mul_mod_noop_left(r1 as int, q as int, d);
                    lemma_add_mod_noop(r1 * q, r2 as int, d);
                    assert(0int * q == 0);
                    lemma_small_mod(0, d as nat);
                    assert(r0 as int % d == 0);
                }
            }
            r0 = r1;
            r1 = r2;
            t0 = t1;
            t1 = t2;
        }
        proof {
            lemma_mod_self_0(r0 as int);
            lemma_small_mod(0, r0 as nat);
            if r0 > 1 {
                lemma_modulus_prime(r0 as int);
            }
        }
        t0
    }
}

} // verus!
