//! The extension is a field: every element but zero has an inverse.
use crate::binomial;
use crate::ext;
use crate::ext::EF;
use crate::field;
use crate::field::{F, MODULUS};
use crate::poly;
use vstd::arithmetic::div_mod::*;
use vstd::prelude::*;

verus! {

/// The element with the given coefficients.
spec fn element(a0: int, a1: int, a2: int, a3: int, a4: int) -> EF {
    EF { c0: F::of(a0), c1: F::of(a1), c2: F::of(a2), c3: F::of(a3), c4: F::of(a4) }
}

/// The element that the extension is made by.
spec fn generator() -> EF {
    element(0, 1, 0, 0, 0)
}

proof fn lemma_congruent(x: int, y: int)
    requires
        (x - y) % (MODULUS as int) == 0,
    ensures
        F::of(x) == F::of(y),
{
    lemma_mod_equivalence(x, y, MODULUS as int);
    field::lemma_of_val(x);
    field::lemma_of_val(y);
    field::lemma_val_injective(F::of(x), F::of(y));
}

proof fn lemma_add_elements(
    a0: int,
    a1: int,
    a2: int,
    a3: int,
    a4: int,
    b0: int,
    b1: int,
    b2: int,
    b3: int,
    b4: int,
)
    ensures
        element(a0, a1, a2, a3, a4) + element(b0, b1, b2, b3, b4) == element(
            a0 + b0,
            a1 + b1,
            a2 + b2,
            a3 + b3,
            a4 + b4,
        ),
{
    field::lemma_of_add(a0, b0);
    field::lemma_of_add(a1, b1);
    field::lemma_of_add(a2, b2);
    field::lemma_of_add(a3, b3);
    field::lemma_of_add(a4, b4);
}

proof fn lemma_scale_element(a0: int, a1: int, a2: int, a3: int, a4: int, k: int)
    ensures
        element(a0, a1, a2, a3, a4).scale_spec(F::of(k)) == element(a0 * k, a1 * k, a2 * k, a3 * k, a4 * k),
{
    field::lemma_of_mul(a0, k);
    field::lemma_of_mul(a1, k);
    field::lemma_of_mul(a2, k);
    field::lemma_of_mul(a3, k);
    field::lemma_of_mul(a4, k);
}

proof fn lemma_shift_element(a0: int, a1: int, a2: int, a3: int, a4: int)
    ensures
        element(a0, a1, a2, a3, a4).shift_spec() == element(a4, a0, a1 - a4, a2, a3),
{
    field::lemma_of_sub(a1, a4);
}

/// The product of elements by their coefficients.
proof fn lemma_product(
    a0: int,
    a1: int,
    a2: int,
    a3: int,
    a4: int,
    b0: int,
    b1: int,
    b2: int,
    b3: int,
    b4: int,
    r0: int,
    r1: int,
    r2: int,
    r3: int,
    r4: int,
)
    requires
        (a0 * b0 + a4 * b1 + a3 * b2 + a2 * b3 + (a1 - a4) * b4 - r0) % (MODULUS as int) == 0,
        (a1 * b0 + a0 * b1 + a4 * b2 + a3 * b3 + a2 * b4 - r1) % (MODULUS as int) == 0,
        (a2 * b0 + (a1 - a4) * b1 + (a0 - a3) * b2 + (a4 - a2) * b3 + (a3 - (a1 - a4)) * b4 - r2) % (MODULUS as int)
            == 0,
        (a3 * b0 + a2 * b1 + (a1 - a4) * b2 + (a0 - a3) * b3 + (a4 - a2) * b4 - r3) % (MODULUS as int) == 0,
        (a4 * b0 + a3 * b1 + a2 * b2 + (a1 - a4) * b3 + (a0 - a3) * b4 - r4) % (MODULUS as int) == 0,
    ensures
        element(a0, a1, a2, a3, a4) * element(b0, b1, b2, b3, b4) == element(r0, r1, r2, r3, r4),
{
    lemma_shift_element(a0, a1, a2, a3, a4);
    lemma_shift_element(a4, a0, a1 - a4, a2, a3);
    lemma_shift_element(a3, a4, a0 - a3, a1 - a4, a2);
    lemma_shift_element(a2, a3, a4 - a2, a0 - a3, a1 - a4);
    lemma_scale_element(a0, a1, a2, a3, a4, b0);
    lemma_scale_element(a4, a0, a1 - a4, a2, a3, b1);
    lemma_scale_element(a3, a4, a0 - a3, a1 - a4, a2, b2);
    lemma_scale_element(a2, a3, a4 - a2, a0 - a3, a1 - a4, b3);
    lemma_scale_element(a1 - a4, a2, a3 - (a1 - a4), a4 - a2, a0 - a3, b4);
    let (s0, s1, s2, s3, s4) = (a0 * b0, a1 * b0, a2 * b0, a3 * b0, a4 * b0);
    let (t0, t1, t2, t3, t4) = (a4 * b1, a0 * b1, (a1 - a4) * b1, a2 * b1, a3 * b1);
    let (u0, u1, u2, u3, u4) = (a3 * b2, a4 * b2, (a0 - a3) * b2, (a1 - a4) * b2, a2 * b2);
    let (v0, v1, v2, v3, v4) = (a2 * b3, a3 * b3, (a4 - a2) * b3, (a0 - a3) * b3, (a1 - a4) * b3);
    let (w0, w1, w2, w3, w4) = ((a1 - a4) * b4, a2 * b4, (a3 - (a1 - a4)) * b4, (a4 - a2) * b4, (a0 - a3) * b4);
    lemma_add_elements(s0, s1, s2, s3, s4, t0, t1, t2, t3, t4);
    lemma_add_elements(s0 + t0, s1 + t1, s2 + t2, s3 + t3, s4 + t4, u0, u1, u2, u3, u4);
    lemma_add_elements(
        s0 + t0 + u0,
        s1 + t1 + u1,
        s2 + t2 + u2,
        s3 + t3 + u3,
        s4 + t4 + u4,
        v0,
        v1,
        v2,
        v3,
        v4,
    );
    lemma_add_elements(
        s0 + t0 + u0 + v0,
        s1 + t1 + u1 + v1,
        s2 + t2 + u2 + v2,
        s3 + t3 + u3 + v3,
        s4 + t4 + u4 + v4,
        w0,
        w1,
        w2,
        w3,
        w4,
    );
    lemma_congruent(s0 + t0 + u0 + v0 + w0, r0);
    lemma_congruent(s1 + t1 + u1 + v1 + w1, r1);
    lemma_congruent(s2 + t2 + u2 + v2 + w2, r2);
    lemma_congruent(s3 + t3 + u3 + v3 + w3, r3);
    lemma_congruent(s4 + t4 + u4 + v4 + w4, r4);
}

/// From a power of the generator to the one of twice the exponent.
proof fn lemma_double(
    n: nat,
    a0: int,
    a1: int,
    a2: int,
    a3: int,
    a4: int,
    r0: int,
    r1: int,
    r2: int,
    r3: int,
    r4: int,
)
    requires
        generator().pow(n) == element(a0, a1, a2, a3, a4),
        (a0 * a0 + a4 * a1 + a3 * a2 + a2 * a3 + (a1 - a4) * a4 - r0) % (MODULUS as int) == 0,
        (a1 * a0 + a0 * a1 + a4 * a2 + a3 * a3 + a2 * a4 - r1) % (MODULUS as int) == 0,
        (a2 * a0 + (a1 - a4) * a1 + (a0 - a3) * a2 + (a4 - a2) * a3 + (a3 - (a1 - a4)) * a4 - r2) % (MODULUS as int)
            == 0,
        (a3 * a0 + a2 * a1 + (a1 - a4) * a2 + (a0 - a3) * a3 + (a4 - a2) * a4 - r3) % (MODULUS as int) == 0,
        (a4 * a0 + a3 * a1 + a2 * a2 + (a1 - a4) * a3 + (a0 - a3) * a4 - r4) % (MODULUS as int) == 0,
    ensures
        generator().pow(2 * n) == element(r0, r1, r2, r3, r4),
{
    ext::lemma_pow_add(generator(), n, n);
    lemma_product(a0, a1, a2, a3, a4, a0, a1, a2, a3, a4, r0, r1, r2, r3, r4);
}

/// From a power of the generator to the next.
proof fn lemma_next(
    n: nat,
    a0: int,
    a1: int,
    a2: int,
    a3: int,
    a4: int,
    r0: int,
    r1: int,
    r2: int,
    r3: int,
    r4: int,
)
    requires
        generator().pow(n) == element(a0, a1, a2, a3, a4),
        (a4 - r0) % (MODULUS as int) == 0,
        (a0 - r1) % (MODULUS as int) == 0,
        (a1 - a4 - r2) % (MODULUS as int) == 0,
        (a2 - r3) % (MODULUS as int) == 0,
        (a3 - r4) % (MODULUS as int) == 0,
    ensures
        generator().pow(n + 1) == element(r0, r1, r2, r3, r4),
{
    lemma_product(a0, a1, a2, a3, a4, 0, 1, 0, 0, 0, r0, r1, r2, r3, r4);
}

/// The generator raised to the characteristic.
spec fn image() -> EF {
    element(1576402667, 1173144480, 1567662457, 1206866823, 2428146)
}

proof fn lemma_image()
    ensures
        generator().pow(MODULUS as nat) == image(),
{
    assert(generator().pow(1) == generator()) by {
        reveal_with_fuel(EF::pow, 2);
        lemma_generator_canonical();
        ext::lemma_mul_comm(EF::one_spec(), generator());
        ext::lemma_mul_one(generator());
    }
    lemma_double(1, 0, 1, 0, 0, 0, 0, 0, 1, 0, 0);
    lemma_next(2, 0, 0, 1, 0, 0, 0, 0, 0, 1, 0);
    lemma_double(3, 0, 0, 0, 1, 0, 0, 1, 0, 2130706432, 0);
    lemma_next(6, 0, 1, 0, 2130706432, 0, 0, 0, 1, 0, 2130706432);
    lemma_double(7, 0, 0, 1, 0, 2130706432, 2130706432, 2130706431, 1, 3, 1);
    lemma_next(14, 2130706432, 2130706431, 1, 3, 1, 1, 2130706432, 2130706430, 1, 3);
    lemma_double(15, 1, 2130706432, 2130706430, 1, 3, 2130706413, 2130706414, 22, 34, 7);
    lemma_next(30, 2130706413, 2130706414, 22, 34, 7, 7, 2130706413, 2130706407, 22, 34);
    lemma_double(31, 7, 2130706413, 2130706407, 22, 34, 2130702822, 2130704869, 5192, 3788, 2130705209);
    lemma_next(62, 2130702822, 2130704869, 5192, 3788, 2130705209, 2130705209, 2130702822, 2130706093, 5192, 3788);
    lemma_double(
        63,
        2130705209, 2130702822, 2130706093, 5192, 3788,
        2086968169, 33220752, 98442673, 2110419817, 2044717793,
    );
    lemma_next(
        126,
        2086968169, 33220752, 98442673, 2110419817, 2044717793,
        2044717793, 2086968169, 119209392, 98442673, 2110419817,
    );
    lemma_double(
        127,
        2044717793, 2086968169, 119209392, 98442673, 2110419817,
        1866154041, 1208567776, 1486994651, 1962757147, 1517752019,
    );
    lemma_double(
        254,
        1866154041, 1208567776, 1486994651, 1962757147, 1517752019,
        1056823124, 1157018846, 159161379, 1355097808, 1518599097,
    );
    lemma_double(
        508,
        1056823124, 1157018846, 159161379, 1355097808, 1518599097,
        1784196215, 458014092, 2569470, 643454138, 863659857,
    );
    lemma_double(
        1016,
        1784196215, 458014092, 2569470, 643454138, 863659857,
        1552898537, 2000529754, 1619786163, 347636529, 835256771,
    );
    lemma_double(
        2032,
        1552898537, 2000529754, 1619786163, 347636529, 835256771,
        1354955507, 1939554199, 18611438, 1418858009, 2055485092,
    );
    lemma_double(
        4064,
        1354955507, 1939554199, 18611438, 1418858009, 2055485092,
        283035628, 1553440824, 211655145, 93787914, 1315379292,
    );
    lemma_double(
        8128,
        283035628, 1553440824, 211655145, 93787914, 1315379292,
        2126322014, 98147785, 1140314362, 1179989942, 1362983228,
    );
    lemma_double(
        16256,
        2126322014, 98147785, 1140314362, 1179989942, 1362983228,
        2066195850, 1185669889, 1192344963, 1643644539, 734245983,
    );
    lemma_double(
        32512,
        2066195850, 1185669889, 1192344963, 1643644539, 734245983,
        27571048, 995524792, 1608549267, 1441771383, 187079009,
    );
    lemma_double(
        65024,
        27571048, 995524792, 1608549267, 1441771383, 187079009,
        926104844, 1409786230, 1363429917, 822713708, 1013193801,
    );
    lemma_double(
        130048,
        926104844, 1409786230, 1363429917, 822713708, 1013193801,
        262650575, 178176277, 581661831, 1006567163, 1602917034,
    );
    lemma_double(
        260096,
        262650575, 178176277, 581661831, 1006567163, 1602917034,
        1431933789, 114074072, 1775084065, 1408824819, 1403224993,
    );
    lemma_double(
        520192,
        1431933789, 114074072, 1775084065, 1408824819, 1403224993,
        559920649, 728450808, 402654609, 1768859849, 166969056,
    );
    lemma_double(
        1040384,
        559920649, 728450808, 402654609, 1768859849, 166969056,
        801118389, 1526675728, 2011889190, 250167104, 998696842,
    );
    lemma_double(
        2080768,
        801118389, 1526675728, 2011889190, 250167104, 998696842,
        1411542408, 1340932151, 1788455615, 438054713, 851921107,
    );
    lemma_double(
        4161536,
        1411542408, 1340932151, 1788455615, 438054713, 851921107,
        2051349185, 999516171, 242342757, 1909111360, 1765927831,
    );
    lemma_double(
        8323072,
        2051349185, 999516171, 242342757, 1909111360, 1765927831,
        869976058, 1570570256, 1695901271, 1403064062, 839381687,
    );
    lemma_double(
        16646144,
        869976058, 1570570256, 1695901271, 1403064062, 839381687,
        1611685321, 117977043, 713314871, 1668855162, 36875811,
    );
    lemma_double(
        33292288,
        1611685321, 117977043, 713314871, 1668855162, 36875811,
        8359925, 1198018067, 1930087342, 221980024, 140184281,
    );
    lemma_double(
        66584576,
        8359925, 1198018067, 1930087342, 221980024, 140184281,
        1243572928, 811326861, 146492001, 381521324, 193236263,
    );
    lemma_double(
        133169152,
        1243572928, 811326861, 146492001, 381521324, 193236263,
        1629601445, 280417322, 1662325996, 1494261105, 1807721295,
    );
    lemma_double(
        266338304,
        1629601445, 280417322, 1662325996, 1494261105, 1807721295,
        213200277, 218877878, 1084173814, 2122950973, 911499797,
    );
    lemma_double(
        532676608,
        213200277, 218877878, 1084173814, 2122950973, 911499797,
        1085978765, 2014382777, 1827833321, 1573302405, 1681516249,
    );
    lemma_double(
        1065353216,
        1085978765, 2014382777, 1827833321, 1573302405, 1681516249,
        1173144480, 1013358691, 1206866823, 2428146, 1576402667,
    );
    lemma_next(
        2130706432,
        1173144480, 1013358691, 1206866823, 2428146, 1576402667,
        1576402667, 1173144480, 1567662457, 1206866823, 2428146,
    );
}

proof fn lemma_generator_canonical()
    ensures
        generator().canonical(),
{
    field::lemma_of_val(0);
    field::lemma_of_val(1);
}

/// The powers of the image of the generator.
proof fn lemma_image_powers()
    ensures
        image().pow(0) == EF::one_spec(),
        image().pow(1) == image(),
        image().pow(2) == element(1680345488, 1381986, 615237464, 1380104858, 295431824),
        image().pow(3) == element(441230756, 323126830, 704986542, 1445620072, 503505220),
        image().pow(4) == element(1364444097, 1144738982, 2008416047, 143367062, 1027410849),
{
    reveal_with_fuel(EF::pow, 5);
    field::lemma_of_val(1576402667);
    field::lemma_of_val(1173144480);
    field::lemma_of_val(1567662457);
    field::lemma_of_val(1206866823);
    field::lemma_of_val(2428146);
    ext::lemma_mul_comm(EF::one_spec(), image());
    ext::lemma_mul_one(image());
    lemma_product(
        1576402667, 1173144480, 1567662457, 1206866823, 2428146,
        1576402667, 1173144480, 1567662457, 1206866823, 2428146,
        1680345488, 1381986, 615237464, 1380104858, 295431824,
    );
    lemma_product(
        1680345488, 1381986, 615237464, 1380104858, 295431824,
        1576402667, 1173144480, 1567662457, 1206866823, 2428146,
        441230756, 323126830, 704986542, 1445620072, 503505220,
    );
    lemma_product(
        441230756, 323126830, 704986542, 1445620072, 503505220,
        1576402667, 1173144480, 1567662457, 1206866823, 2428146,
        1364444097, 1144738982, 2008416047, 143367062, 1027410849,
    );
}

/// The combination of the powers of `w` with the coefficients of `x`.
spec fn at(w: EF, x: EF) -> EF {
    w.pow(0).scale_spec(x.c0) + w.pow(1).scale_spec(x.c1) + w.pow(2).scale_spec(x.c2) + w.pow(3).scale_spec(x.c3)
        + w.pow(4).scale_spec(x.c4)
}

/// Every element is the combination of the powers of the generator with its coefficients.
proof fn lemma_at_generator(x: EF)
    requires
        x.canonical(),
    ensures
        at(generator(), x) == x,
{
    let one = EF::one_spec();
    let g = generator();
    reveal_with_fuel(EF::pow, 5);
    lemma_generator_canonical();
    ext::lemma_constants_canonical();
    ext::lemma_mul_comm(one, g);
    ext::lemma_mul_one(g);
    lemma_product(0, 1, 0, 0, 0, 0, 1, 0, 0, 0, 0, 0, 1, 0, 0);
    lemma_product(0, 0, 1, 0, 0, 0, 1, 0, 0, 0, 0, 0, 0, 1, 0);
    lemma_product(0, 0, 0, 1, 0, 0, 1, 0, 0, 0, 0, 0, 0, 0, 1);
    lemma_shift_element(1, 0, 0, 0, 0);
    lemma_shift_element(0, 1, 0, 0, 0);
    lemma_shift_element(0, 0, 1, 0, 0);
    lemma_shift_element(0, 0, 0, 1, 0);
    ext::lemma_mul_comm(one, x);
    ext::lemma_mul_one(x);
}

/// Every element of the base field is its own power to the characteristic.
proof fn lemma_base_power(n: nat)
    ensures
        F::of(n as int).pow(MODULUS as nat) == F::of(n as int),
    decreases n,
{
    let p: nat = MODULUS as nat;
    if n == 0 {
        let z = F::zero_spec();
        field::lemma_mul_zero(z.pow((p - 1) as nat));
    } else {
        let m: nat = (n - 1) as nat;
        let a = F::of(m as int);
        let one = F::one_spec();
        lemma_base_power(m);
        field::lemma_pow_one(p);
        field::lemma_of_add(m as int, 1);
        binomial::lemma_power_of_sum(EF::from_base_spec(a), EF::from_base_spec(one));
        ext::lemma_from_base_ring(a, one);
        ext::lemma_from_base_ring(a.pow(p), one.pow(p));
        ext::lemma_from_base_pow(a, p);
        ext::lemma_from_base_pow(one, p);
        ext::lemma_from_base_pow(a + one, p);
    }
}

/// One term of a combination, raised to the characteristic.
proof fn lemma_term_power(w: EF, i: nat, k: F)
    requires
        k.canonical(),
    ensures
        w.pow(i).scale_spec(k).pow(MODULUS as nat) == w.pow(MODULUS as nat).pow(i).scale_spec(k),
{
    let p: nat = MODULUS as nat;
    ext::lemma_pow_scale(w.pow(i), k, p);
    ext::lemma_pow_mul(w, i, p);
    ext::lemma_pow_mul(w, p, i);
    assert(i * p == p * i) by (nonlinear_arith);
    field::lemma_val_nonneg(k);
    field::lemma_of_canonical(k);
    lemma_base_power(k.val() as nat);
}

/// Raising a combination to the characteristic raises what it combines.
proof fn lemma_at_power(w: EF, x: EF)
    requires
        x.canonical(),
    ensures
        at(w, x).pow(MODULUS as nat) == at(w.pow(MODULUS as nat), x),
{
    let t0 = w.pow(0).scale_spec(x.c0);
    let t1 = w.pow(1).scale_spec(x.c1);
    let t2 = w.pow(2).scale_spec(x.c2);
    let t3 = w.pow(3).scale_spec(x.c3);
    let t4 = w.pow(4).scale_spec(x.c4);
    binomial::lemma_power_of_sum(t0 + t1 + t2 + t3, t4);
    binomial::lemma_power_of_sum(t0 + t1 + t2, t3);
    binomial::lemma_power_of_sum(t0 + t1, t2);
    binomial::lemma_power_of_sum(t0, t1);
    lemma_term_power(w, 0, x.c0);
    lemma_term_power(w, 1, x.c1);
    lemma_term_power(w, 2, x.c2);
    lemma_term_power(w, 3, x.c3);
    lemma_term_power(w, 4, x.c4);
}

/// The combination of the powers of the image with given coefficients.
proof fn lemma_at_image(t0: int, t1: int, t2: int, t3: int, t4: int, r0: int, r1: int, r2: int, r3: int, r4: int)
    requires
        (t0 + 1576402667 * t1 + 1680345488 * t2 + 441230756 * t3 + 1364444097 * t4 - r0) % (MODULUS as int) == 0,
        (1173144480 * t1 + 1381986 * t2 + 323126830 * t3 + 1144738982 * t4 - r1) % (MODULUS as int) == 0,
        (1567662457 * t1 + 615237464 * t2 + 704986542 * t3 + 2008416047 * t4 - r2) % (MODULUS as int) == 0,
        (1206866823 * t1 + 1380104858 * t2 + 1445620072 * t3 + 143367062 * t4 - r3) % (MODULUS as int) == 0,
        (2428146 * t1 + 295431824 * t2 + 503505220 * t3 + 1027410849 * t4 - r4) % (MODULUS as int) == 0,
    ensures
        at(image(), element(t0, t1, t2, t3, t4)) == element(r0, r1, r2, r3, r4),
{
    lemma_image_powers();
    lemma_scale_element(1, 0, 0, 0, 0, t0);
    lemma_scale_element(1576402667, 1173144480, 1567662457, 1206866823, 2428146, t1);
    lemma_scale_element(1680345488, 1381986, 615237464, 1380104858, 295431824, t2);
    lemma_scale_element(441230756, 323126830, 704986542, 1445620072, 503505220, t3);
    lemma_scale_element(1364444097, 1144738982, 2008416047, 143367062, 1027410849, t4);
    lemma_add_elements(
        1 * t0, 0 * t0, 0 * t0, 0 * t0, 0 * t0,
        1576402667 * t1, 1173144480 * t1, 1567662457 * t1, 1206866823 * t1, 2428146 * t1,
    );
    lemma_add_elements(
        1 * t0 + 1576402667 * t1,
        0 * t0 + 1173144480 * t1,
        0 * t0 + 1567662457 * t1,
        0 * t0 + 1206866823 * t1,
        0 * t0 + 2428146 * t1,
        1680345488 * t2, 1381986 * t2, 615237464 * t2, 1380104858 * t2, 295431824 * t2,
    );
    lemma_add_elements(
        1 * t0 + 1576402667 * t1 + 1680345488 * t2,
        0 * t0 + 1173144480 * t1 + 1381986 * t2,
        0 * t0 + 1567662457 * t1 + 615237464 * t2,
        0 * t0 + 1206866823 * t1 + 1380104858 * t2,
        0 * t0 + 2428146 * t1 + 295431824 * t2,
        441230756 * t3, 323126830 * t3, 704986542 * t3, 1445620072 * t3, 503505220 * t3,
    );
    lemma_add_elements(
        1 * t0 + 1576402667 * t1 + 1680345488 * t2 + 441230756 * t3,
        0 * t0 + 1173144480 * t1 + 1381986 * t2 + 323126830 * t3,
        0 * t0 + 1567662457 * t1 + 615237464 * t2 + 704986542 * t3,
        0 * t0 + 1206866823 * t1 + 1380104858 * t2 + 1445620072 * t3,
        0 * t0 + 2428146 * t1 + 295431824 * t2 + 503505220 * t3,
        1364444097 * t4, 1144738982 * t4, 2008416047 * t4, 143367062 * t4, 1027410849 * t4,
    );
    lemma_congruent(1 * t0 + 1576402667 * t1 + 1680345488 * t2 + 441230756 * t3 + 1364444097 * t4, r0);
    lemma_congruent(0 * t0 + 1173144480 * t1 + 1381986 * t2 + 323126830 * t3 + 1144738982 * t4, r1);
    lemma_congruent(0 * t0 + 1567662457 * t1 + 615237464 * t2 + 704986542 * t3 + 2008416047 * t4, r2);
    lemma_congruent(0 * t0 + 1206866823 * t1 + 1380104858 * t2 + 1445620072 * t3 + 143367062 * t4, r3);
    lemma_congruent(0 * t0 + 2428146 * t1 + 295431824 * t2 + 503505220 * t3 + 1027410849 * t4, r4);
}

/// An element that is its own power to the characteristic is one of the base field.
proof fn lemma_fixed_is_base(e: EF)
    requires
        e.canonical(),
        e.pow(MODULUS as nat) == e,
    ensures
        e == EF::from_base_spec(e.c0),
{
    let p: int = MODULUS as int;
    let (t0, t1, t2, t3, t4) = (e.c0.val(), e.c1.val(), e.c2.val(), e.c3.val(), e.c4.val());
    field::lemma_of_canonical(e.c0);
    field::lemma_of_canonical(e.c1);
    field::lemma_of_canonical(e.c2);
    field::lemma_of_canonical(e.c3);
    field::lemma_of_canonical(e.c4);
    field::lemma_val_nonneg(e.c0);
    field::lemma_val_nonneg(e.c1);
    field::lemma_val_nonneg(e.c2);
    field::lemma_val_nonneg(e.c3);
    field::lemma_val_nonneg(e.c4);
    assert(e == element(t0, t1, t2, t3, t4));
    lemma_at_generator(e);
    lemma_at_power(generator(), e);
    lemma_image();
    let s0: int = t0 + 1576402667 * t1 + 1680345488 * t2 + 441230756 * t3 + 1364444097 * t4;
    let s1: int = 1173144480 * t1 + 1381986 * t2 + 323126830 * t3 + 1144738982 * t4;
    let s2: int = 1567662457 * t1 + 615237464 * t2 + 704986542 * t3 + 2008416047 * t4;
    let s3: int = 1206866823 * t1 + 1380104858 * t2 + 1445620072 * t3 + 143367062 * t4;
    let s4: int = 2428146 * t1 + 295431824 * t2 + 503505220 * t3 + 1027410849 * t4;
    assert((s0 - s0) % p == 0 && (s1 - s1) % p == 0 && (s2 - s2) % p == 0 && (s3 - s3) % p == 0 && (s4 - s4)
        % p == 0);
    lemma_at_image(t0, t1, t2, t3, t4, s0, s1, s2, s3, s4);
    field::lemma_congruent_of(s0, t0);
    field::lemma_congruent_of(s1, t1);
    field::lemma_congruent_of(s2, t2);
    field::lemma_congruent_of(s4, t4);
    lemma_no_other(t1, t2, t3, t4);
}

/// The equations of an element that is its own image have no solution outside the base field.
proof fn lemma_no_other(t1: int, t2: int, t3: int, t4: int)
    requires
        0 <= t1 < MODULUS,
        0 <= t2 < MODULUS,
        0 <= t3 < MODULUS,
        0 <= t4 < MODULUS,
        (1576402667 * t1 + 1680345488 * t2 + 441230756 * t3 + 1364444097 * t4) % (MODULUS as int) == 0,
        (1173144480 * t1 + 1381986 * t2 + 323126830 * t3 + 1144738982 * t4 - t1) % (MODULUS as int) == 0,
        (1567662457 * t1 + 615237464 * t2 + 704986542 * t3 + 2008416047 * t4 - t2) % (MODULUS as int) == 0,
        (2428146 * t1 + 295431824 * t2 + 503505220 * t3 + 1027410849 * t4 - t4) % (MODULUS as int) == 0,
    ensures
        t1 == 0,
        t2 == 0,
        t3 == 0,
        t4 == 0,
{
    let p: int = MODULUS as int;
    let x0: int = 1576402667 * t1 + 1680345488 * t2 + 441230756 * t3 + 1364444097 * t4;
    let q0: int = x0 / p;
    lemma_fundamental_div_mod(x0, p);
    let x1: int = 1173144480 * t1 + 1381986 * t2 + 323126830 * t3 + 1144738982 * t4 - t1;
    let q1: int = x1 / p;
    lemma_fundamental_div_mod(x1, p);
    let x2: int = 1567662457 * t1 + 615237464 * t2 + 704986542 * t3 + 2008416047 * t4 - t2;
    let q2: int = x2 / p;
    lemma_fundamental_div_mod(x2, p);
    let x3: int = 2428146 * t1 + 295431824 * t2 + 503505220 * t3 + 1027410849 * t4 - t4;
    let q3: int = x3 / p;
    lemma_fundamental_div_mod(x3, p);
    let m1: int = 644918826 * q0 + 452286336 * q1 + 1706196746 * q2 + 54375094 * q3 - 1981559507 * t1
        - 1009098086 * t2 - 779519756 * t3 - 2290472256 * t4;
    assert(t1 == p * m1);
    lemma_multiple_is_zero(t1, m1);
    let m2: int = 513714627 * q0 + 887608306 * q1 + 93988210 * q2 + 1877406898 * q3 - 940070517 * t1
        - 693157681 * t2 - 715735084 * t3 - 1799708445 * t4;
    assert(t2 == p * m2);
    lemma_multiple_is_zero(t2, m2);
    let m3: int = 1410699775 * q0 + 734967746 * q1 + 454069816 * q2 + 482666887 * q3 - 1783002281 * t1
        - 1311036844 * t2 - 667886627 * t3 - 1958986675 * t4;
    assert(t3 == p * m3);
    lemma_multiple_is_zero(t3, m3);
    let m4: int = 97412552 * q0 + 106423697 * q1 + 1659649197 * q2 + 738012020 * q3 - 1352590612 * t1
        - 658440973 * t2 - 759838612 * t3 - 2039815952 * t4;
    assert(t4 == p * m4);
    lemma_multiple_is_zero(t4, m4);
}

proof fn lemma_multiple_is_zero(t: int, m: int)
    requires
        0 <= t < MODULUS,
        t == MODULUS as int * m,
    ensures
        t == 0,
{
    assert(m == 0) by (nonlinear_arith)
        requires
            0 <= t < 2130706433,
            t == 2130706433 * m,
    ;
}

/// The number of elements of the extension.
spec fn order() -> nat {
    let p: nat = MODULUS as nat;
    p * p * p * p * p
}

/// The generator raised to the number of elements is itself again.
proof fn lemma_generator_returns()
    ensures
        generator().pow(order()) == generator(),
{
    let p: nat = MODULUS as nat;
    let g = generator();
    lemma_image();
    ext::lemma_pow_mul(g, p, p);
    ext::lemma_pow_mul(g, p * p, p);
    ext::lemma_pow_mul(g, p * p * p, p);
    ext::lemma_pow_mul(g, p * p * p * p, p);
    lemma_step(
        1576402667, 1173144480, 1567662457, 1206866823, 2428146,
        361322221, 1970254932, 446925412, 2022674657, 1632465862,
    );
    lemma_step(
        361322221, 1970254932, 446925412, 2022674657, 1632465862,
        866070051, 932157177, 618652440, 1443450085, 457078219,
    );
    lemma_step(
        866070051, 932157177, 618652440, 1443450085, 457078219,
        1457617927, 185856276, 1628172557, 1719127734, 38734206,
    );
    lemma_step(1457617927, 185856276, 1628172557, 1719127734, 38734206, 0, 1, 0, 0, 0);
}

/// An element raised to the characteristic, by coefficients.
proof fn lemma_step(t0: int, t1: int, t2: int, t3: int, t4: int, r0: int, r1: int, r2: int, r3: int, r4: int)
    requires
        (t0 + 1576402667 * t1 + 1680345488 * t2 + 441230756 * t3 + 1364444097 * t4 - r0) % (MODULUS as int) == 0,
        (1173144480 * t1 + 1381986 * t2 + 323126830 * t3 + 1144738982 * t4 - r1) % (MODULUS as int) == 0,
        (1567662457 * t1 + 615237464 * t2 + 704986542 * t3 + 2008416047 * t4 - r2) % (MODULUS as int) == 0,
        (1206866823 * t1 + 1380104858 * t2 + 1445620072 * t3 + 143367062 * t4 - r3) % (MODULUS as int) == 0,
        (2428146 * t1 + 295431824 * t2 + 503505220 * t3 + 1027410849 * t4 - r4) % (MODULUS as int) == 0,
    ensures
        element(t0, t1, t2, t3, t4).pow(MODULUS as nat) == element(r0, r1, r2, r3, r4),
{
    let x = element(t0, t1, t2, t3, t4);
    field::lemma_of_val(t0);
    field::lemma_of_val(t1);
    field::lemma_of_val(t2);
    field::lemma_of_val(t3);
    field::lemma_of_val(t4);
    lemma_at_generator(x);
    lemma_at_power(generator(), x);
    lemma_image();
    lemma_at_image(t0, t1, t2, t3, t4, r0, r1, r2, r3, r4);
}

/// Every element raised to the number of elements is itself again.
proof fn lemma_returns(x: EF)
    requires
        x.canonical(),
    ensures
        x.pow(order()) == x,
{
    let p: nat = MODULUS as nat;
    let g = generator();
    lemma_at_generator(x);
    ext::lemma_pow_mul(x, p, p);
    ext::lemma_pow_mul(x, p * p, p);
    ext::lemma_pow_mul(x, p * p * p, p);
    ext::lemma_pow_mul(x, p * p * p * p, p);
    ext::lemma_pow_mul(g, p, p);
    ext::lemma_pow_mul(g, p * p, p);
    ext::lemma_pow_mul(g, p * p * p, p);
    ext::lemma_pow_mul(g, p * p * p * p, p);
    lemma_at_power(g, x);
    lemma_at_power(g.pow(p), x);
    lemma_at_power(g.pow(p * p), x);
    lemma_at_power(g.pow(p * p * p), x);
    lemma_at_power(g.pow(p * p * p * p), x);
    lemma_generator_returns();
}

/// Powers of an element that is its own square.
proof fn lemma_idempotent_power(e: EF, n: nat)
    requires
        e.canonical(),
        e * e == e,
        n > 0,
    ensures
        e.pow(n) == e,
    decreases n,
{
    if n == 1 {
        reveal_with_fuel(EF::pow, 2);
        ext::lemma_mul_comm(EF::one_spec(), e);
        ext::lemma_mul_one(e);
    } else {
        lemma_idempotent_power(e, (n - 1) as nat);
    }
}

/// Every element but zero has an inverse.
pub proof fn law_nonzero_has_inverse(x: EF)
    requires
        x.canonical(),
        x != EF::zero_spec(),
    ensures
        x.is_unit(),
{
    let q: nat = order();
    let one = EF::one_spec();
    assert(q > 2) by (nonlinear_arith)
        requires
            q == MODULUS as nat * MODULUS as nat * MODULUS as nat * MODULUS as nat * MODULUS as nat,
            MODULUS as nat == 2130706433,
    ;
    let below = x.pow((q - 2) as nat);
    let e = x.pow((q - 1) as nat);
    lemma_returns(x);
    assert(e == below * x);
    assert(e * x == x);
    // The square of the power is the power itself.
    ext::lemma_pow_add(x, (q - 1) as nat, (q - 1) as nat);
    ext::lemma_pow_add(x, (q - 2) as nat, q);
    assert((q - 1) as nat + (q - 1) as nat == (q - 2) as nat + q);
    assert(e * e == e);
    ext::lemma_pow_canonical(x, (q - 1) as nat);
    lemma_idempotent_power(e, MODULUS as nat);
    lemma_fixed_is_base(e);
    let c = e.c0;
    ext::lemma_from_base_ring(c, c);
    assert(c * c == c);
    if c == F::zero_spec() {
        ext::lemma_mul_comm(e, x);
        ext::lemma_mul_zero(x);
        assert(false);
    }
    if c != F::one_spec() {
        // c (c - 1) is zero, and neither factor is.
        field::lemma_of_val(1);
        field::lemma_of_val(c.val() - 1);
        field::lemma_sub_zero_iff(c, F::one_spec());
        field::lemma_mul_distrib_sub(c, c, F::one_spec());
        field::lemma_mul_one(c);
        field::lemma_sub_self(c);
        poly::lemma_product_nonzero(c, c - F::one_spec());
        assert(false);
    }
    ext::lemma_mul_comm(below, x);
    ext::lemma_pow_canonical(x, (q - 2) as nat);
    assert(x * below == one);
}

/// The elements with inverses are those that are not zero.
pub proof fn lemma_unit_iff_nonzero(x: EF)
    requires
        x.canonical(),
    ensures
        x.is_unit() <==> x != EF::zero_spec(),
{
    if x == EF::zero_spec() {
        field::lemma_of_val(0);
        field::lemma_of_val(1);
        if x.is_unit() {
            let b = choose|b: EF| b.canonical() && #[trigger] (x * b) == EF::one_spec();
            ext::lemma_mul_comm(x, b);
            ext::lemma_mul_zero(b);
            assert(false);
        }
    } else {
        law_nonzero_has_inverse(x);
    }
}

} // verus!
