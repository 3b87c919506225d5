//! The order in which the hash session stores its rows: the low digits of the row number reversed.
use super::raw_poly;
use crate::ext;
use crate::ext::EF;
use crate::mle;
use crate::ntt;
use crate::sums;
use vstd::arithmetic::div_mod::*;
use vstd::arithmetic::mul::*;
use vstd::arithmetic::power2::*;
use vstd::prelude::*;

verus! {

/// The number `i` with its `m` lowest digits reversed.
pub open spec fn natural(m: nat, i: int) -> int {
    (i / (pow2(m) as int)) * pow2(m) + ntt::reversed(m, (i % (pow2(m) as int)) as nat)
}

/// A number from its block and its place in the block.
pub proof fn lemma_block_parts(s: int, c: int, q: int)
    requires
        s > 0,
        0 <= c,
        0 <= q < s,
    ensures
        (c * s + q) / s == c,
        (c * s + q) % s == q,
        c * s + q >= 0,
{
    lemma_fundamental_div_mod_converse(c * s + q, s, c, q);
    lemma_mul_nonnegative(c, s);
}

/// A number is its block and its place in the block.
pub proof fn lemma_block_whole(s: int, i: int)
    requires
        s > 0,
        0 <= i,
    ensures
        i == (i / s) * s + i % s,
        0 <= i / s,
        0 <= i % s < s,
{
    lemma_fundamental_div_mod(i, s);
    lemma_mod_bound(i, s);
    lemma_div_pos_is_pos(i, s);
    lemma_mul_is_commutative(s, i / s);
}

pub proof fn lemma_natural_parts(m: nat, c: int, q: int)
    requires
        0 <= c,
        0 <= q < pow2(m),
    ensures
        natural(m, c * pow2(m) + q) == c * pow2(m) + ntt::reversed(m, q as nat),
        0 <= ntt::reversed(m, q as nat) < pow2(m),
{
    lemma_pow2_pos(m);
    lemma_block_parts(pow2(m) as int, c, q);
    ntt::lemma_reversed_bound(m, q as nat);
}

/// Reversing keeps the block.
pub proof fn lemma_natural_block(m: nat, i: int)
    requires
        0 <= i,
    ensures
        0 <= natural(m, i),
        natural(m, i) / (pow2(m) as int) == i / (pow2(m) as int),
        natural(m, natural(m, i)) == i,
{
    let s: int = pow2(m) as int;
    lemma_pow2_pos(m);
    lemma_block_whole(s, i);
    let c: int = i / s;
    let q: int = i % s;
    lemma_natural_parts(m, c, q);
    let r: int = ntt::reversed(m, q as nat) as int;
    lemma_block_parts(s, c, r);
    lemma_natural_parts(m, c, r);
    ntt::lemma_reversed_twice(m, q as nat);
}

/// Reversing keeps a number below a multiple of the block length.
pub proof fn lemma_natural_bound(m: nat, u: nat, i: int)
    requires
        0 <= i < u * pow2(m),
    ensures
        0 <= natural(m, i) < u * pow2(m),
{
    let s: int = pow2(m) as int;
    lemma_pow2_pos(m);
    lemma_natural_block(m, i);
    lemma_block_whole(s, i);
    lemma_block_whole(s, natural(m, i));
    let c: int = i / s;
    let q: int = i % s;
    let r: int = natural(m, i) % s;
    assert(c < u) by (nonlinear_arith)
        requires
            c * s + q < u * s,
            0 <= q,
            s > 0,
    ;
    assert(c * s + r < u * s) by (nonlinear_arith)
        requires
            c + 1 <= u,
            r < s,
            s > 0,
    ;
}

/// The halves of a pair in stored order are neighbours in natural order.
pub proof fn lemma_natural_pair(m: nat, j: int)
    requires
        m >= 1,
        0 <= j,
    ensures
        natural(m, raw_poly::pair_lo((m - 1) as nat, j)) == 2 * natural((m - 1) as nat, j),
        natural(m, raw_poly::pair_hi((m - 1) as nat, j)) == 2 * natural((m - 1) as nat, j) + 1,
{
    let b: nat = (m - 1) as nat;
    let s: int = pow2(b) as int;
    lemma_pow2_pos(b);
    lemma_pow2_unfold(m);
    lemma_block_whole(s, j);
    let c: int = j / s;
    let q: int = j % s;
    lemma_natural_parts(b, c, q);
    let r: int = ntt::reversed(b, q as nat) as int;
    lemma_natural_parts(m, c, q);
    lemma_natural_parts(m, c, q + s);
    ntt::lemma_reversed_top(b, 0, q as nat);
    ntt::lemma_reversed_top(b, 1, q as nat);
    assert(0nat * pow2(b) + (q as nat) == q as nat);
    assert(1nat * pow2(b) + (q as nat) == (q + s) as nat);
    assert(c * (2 * s) == 2 * (c * s)) by (nonlinear_arith);
}

pub proof fn lemma_natural_zero(i: int)
    ensures
        natural(0, i) == i,
{
    lemma2_to64();
}

/// A sum over all numbers below a power of two in reversed order.
proof fn lemma_sum_reversed(m: nat, g: spec_fn(int) -> EF)
    ensures
        sums::sum(pow2(m), |q: int| g(ntt::reversed(m, q as nat) as int)) == sums::sum(pow2(m), g),
    decreases m,
{
    let f = |q: int| g(ntt::reversed(m, q as nat) as int);
    if m == 0 {
        lemma2_to64();
        sums::lemma_sum_ext(1, f, g);
    } else {
        let b: nat = (m - 1) as nat;
        let n: nat = pow2(b);
        lemma_pow2_unfold(m);
        let even = |y: int| g(2 * y);
        let odd = |y: int| g(2 * y + 1);
        lemma_sum_reversed(b, even);
        lemma_sum_reversed(b, odd);
        sums::lemma_sum_even_odd(n, g);
        sums::lemma_sum_split(n, n, f);
        let lo = |q: int| even(ntt::reversed(b, q as nat) as int);
        let hi = |q: int| odd(ntt::reversed(b, q as nat) as int);
        assert forall|q: int| 0 <= q < n implies #[trigger] f(q) == lo(q) by {
            ntt::lemma_reversed_top(b, 0, q as nat);
            assert(0nat * pow2(b) + (q as nat) == q as nat);
        }
        let shifted = |q: int| f(n + q);
        assert forall|q: int| 0 <= q < n implies #[trigger] shifted(q) == hi(q) by {
            ntt::lemma_reversed_top(b, 1, q as nat);
            assert(1nat * pow2(b) + (q as nat) == (n + q) as nat);
        }
        sums::lemma_sum_ext(n, f, lo);
        sums::lemma_sum_ext(n, shifted, hi);
    }
}

/// A sum over whole blocks in reversed order.
pub proof fn lemma_sum_natural(m: nat, u: nat, f: spec_fn(int) -> EF)
    ensures
        sums::sum(u * pow2(m), |j: int| f(natural(m, j))) == sums::sum(u * pow2(m), f),
{
    let s: nat = pow2(m);
    let g = |j: int| f(natural(m, j));
    sums::lemma_sum_blocks(u, s, g);
    sums::lemma_sum_blocks(u, s, f);
    let a = |c: int| sums::sum(s, |q: int| g(c * s + q));
    let b = |c: int| sums::sum(s, |q: int| f(c * s + q));
    assert forall|c: int| 0 <= c < u implies #[trigger] a(c) == b(c) by {
        let h = |y: int| f(c * s + y);
        lemma_sum_reversed(m, h);
        let x = |q: int| g(c * s + q);
        let y = |q: int| h(ntt::reversed(m, q as nat) as int);
        assert forall|q: int| 0 <= q < s implies #[trigger] x(q) == y(q) by {
            lemma_natural_parts(m, c, q);
        }
        sums::lemma_sum_ext(s, x, y);
        sums::lemma_sum_ext(s, h, |q: int| f(c * s + q));
    }
    sums::lemma_sum_ext(u, a, b);
}

/// A sum over all numbers below a power of two, pair by pair.
pub proof fn lemma_sum_pairs(bit: nat, n: nat, f: spec_fn(int) -> EF)
    requires
        bit < n,
    ensures
        sums::sum(pow2(n), f) == sums::sum(pow2((n - 1) as nat), |j: int| f(raw_poly::pair_lo(bit, j))) + sums::sum(
            pow2((n - 1) as nat),
            |j: int| f(raw_poly::pair_hi(bit, j)),
        ),
{
    let s: nat = pow2(bit);
    lemma_pow2_pos(bit);
    let u: nat = pow2((n - 1 - bit) as nat);
    lemma_pow2_adds((n - 1 - bit) as nat, bit);
    lemma_pow2_unfold(n);
    assert(pow2(n) == u * (2 * s)) by (nonlinear_arith)
        requires
            pow2(n) == 2 * (u * s),
    ;
    sums::lemma_sum_blocks(u, 2 * s, f);
    let lo = |j: int| f(raw_poly::pair_lo(bit, j));
    let hi = |j: int| f(raw_poly::pair_hi(bit, j));
    sums::lemma_sum_blocks(u, s, lo);
    sums::lemma_sum_blocks(u, s, hi);
    let whole = |c: int| sums::sum(2 * s, |q: int| f(c * (2 * s) + q));
    let low = |c: int| sums::sum(s, |q: int| lo(c * s + q));
    let high = |c: int| sums::sum(s, |q: int| hi(c * s + q));
    let both = |c: int| low(c) + high(c);
    sums::lemma_sum_add(u, low, high);
    assert forall|c: int| 0 <= c < u implies #[trigger] whole(c) == both(c) by {
        let g = |q: int| f(c * (2 * s) + q);
        sums::lemma_sum_split(s, s, g);
        let a = |q: int| lo(c * s + q);
        let b = |q: int| hi(c * s + q);
        assert forall|q: int| 0 <= q < s implies #[trigger] g(q) == a(q) by {
            lemma_block_parts(s as int, c, q);
        }
        let shifted = |q: int| g(s + q);
        assert forall|q: int| 0 <= q < s implies #[trigger] shifted(q) == b(q) by {
            lemma_block_parts(s as int, c, q);
        }
        sums::lemma_sum_ext(s, g, a);
        sums::lemma_sum_ext(s, shifted, b);
    }
    sums::lemma_sum_ext(u, whole, both);
}

/// The point with `e` put in `bit` coordinates before its end.
pub open spec fn inserted(point: Seq<EF>, bit: nat, e: EF) -> Seq<EF> {
    point.subrange(0, point.len() - bit).push(e) + point.subrange(point.len() - bit, point.len() as int)
}

/// Halving the indices of a pair.
proof fn lemma_pair_halved(bit: nat, j: int)
    requires
        bit >= 1,
        0 <= j,
    ensures
        raw_poly::pair_lo(bit, j) / 2 == raw_poly::pair_lo((bit - 1) as nat, j / 2),
        raw_poly::pair_lo(bit, j) % 2 == j % 2,
        raw_poly::pair_hi(bit, j) / 2 == raw_poly::pair_hi((bit - 1) as nat, j / 2),
        raw_poly::pair_hi(bit, j) % 2 == j % 2,
{
    let b: nat = (bit - 1) as nat;
    let s: int = pow2(b) as int;
    lemma_pow2_pos(b);
    lemma_pow2_unfold(bit);
    lemma_block_whole(2 * s, j);
    let c: int = j / (2 * s);
    let q: int = j % (2 * s);
    assert(c * (2 * s) == 2 * (c * s)) by (nonlinear_arith);
    assert(j / 2 == c * s + q / 2);
    lemma_block_parts(s, c, q / 2);
    assert(c * (2 * (2 * s)) == 2 * (c * (2 * s))) by (nonlinear_arith);
}

/// The pairs of the lowest digit are neighbours.
pub proof fn lemma_pair_of_zero(j: int)
    ensures
        raw_poly::pair_lo(0, j) == 2 * j,
        raw_poly::pair_hi(0, j) == 2 * j + 1,
{
    lemma2_to64();
    let s: int = pow2(0) as int;
    assert(s == 1);
    assert(j / 1 == j && j % 1 == 0);
    assert((j / s) * (2 * s) == 2 * j) by (nonlinear_arith)
        requires
            s == 1,
            j / s == j,
    ;
}

/// The weight of a pair at a point with a coordinate put in: that of the pair without it, times the
/// factor of the coordinate.
pub proof fn lemma_inserted_weight(point: Seq<EF>, bit: nat, e: EF, j: int)
    requires
        bit <= point.len(),
        0 <= j,
    ensures
        mle::eq_weight(inserted(point, bit, e), raw_poly::pair_lo(bit, j)) == mle::eq_weight(point, j)
            * (EF::one_spec() - e),
        mle::eq_weight(inserted(point, bit, e), raw_poly::pair_hi(bit, j)) == mle::eq_weight(point, j) * e,
    decreases bit,
{
    let one = EF::one_spec();
    let p = inserted(point, bit, e);
    if bit == 0 {
        lemma2_to64();
        assert(p =~= point.push(e));
        assert(p.drop_last() =~= point);
        lemma_pair_of_zero(j);
        assert((2 * j) / 2 == j && (2 * j) % 2 == 0);
        assert((2 * j + 1) / 2 == j && (2 * j + 1) % 2 == 1);
    } else {
        let b: nat = (bit - 1) as nat;
        let rest = point.drop_last();
        assert(p.drop_last() =~= inserted(rest, b, e));
        assert(p.last() == point.last());
        lemma_pair_halved(bit, j);
        lemma_inserted_weight(rest, b, e, j / 2);
        let w = mle::eq_weight(rest, j / 2);
        let t = if j % 2 == 1 {
            point.last()
        } else {
            one - point.last()
        };
        // (w e) t == (w t) e
        ext::lemma_mul_assoc(w, e, t);
        ext::lemma_mul_comm(e, t);
        ext::lemma_mul_assoc(w, t, e);
        ext::lemma_mul_assoc(w, one - e, t);
        ext::lemma_mul_comm(one - e, t);
        ext::lemma_mul_assoc(w, t, one - e);
    }
}

/// The point with its coordinates from `head` on in reverse.
pub open spec fn permuted(point: Seq<EF>, head: int) -> Seq<EF> {
    point.subrange(0, head) + point.subrange(head, point.len() as int).reverse()
}

/// The weight at a permuted point is the weight of the number in natural order.
pub proof fn lemma_permuted_weight(point: Seq<EF>, head: int, j: int)
    requires
        0 <= head <= point.len(),
        0 <= j,
    ensures
        mle::eq_weight(permuted(point, head), j) == mle::eq_weight(point, natural((point.len() - head) as nat, j)),
    decreases point.len() - head,
{
    let t: nat = (point.len() - head) as nat;
    let p = permuted(point, head);
    if t == 0 {
        lemma_natural_zero(j);
        assert(p =~= point);
    } else {
        let b: nat = (t - 1) as nat;
        let e = point[head];
        let rest = point.remove(head);
        assert(p.last() == e);
        assert(p.drop_last() =~= permuted(rest, head));
        assert(inserted(rest, b, e) =~= point);
        lemma_permuted_weight(rest, head, j / 2);
        let y = natural(b, j / 2);
        lemma_natural_block(b, j / 2);
        lemma_inserted_weight(rest, b, e, y);
        lemma_natural_digit(t, j);
    }
}

/// The lowest digit becomes the highest of its block.
proof fn lemma_natural_digit(t: nat, j: int)
    requires
        t >= 1,
        0 <= j,
    ensures
        natural(t, j) == (if j % 2 == 1 {
            raw_poly::pair_hi((t - 1) as nat, natural((t - 1) as nat, j / 2))
        } else {
            raw_poly::pair_lo((t - 1) as nat, natural((t - 1) as nat, j / 2))
        }),
{
    let b: nat = (t - 1) as nat;
    let s: int = pow2(b) as int;
    lemma_pow2_pos(b);
    lemma_pow2_unfold(t);
    lemma_block_whole(2 * s, j);
    let c: int = j / (2 * s);
    let q: int = j % (2 * s);
    assert(c * (2 * s) == 2 * (c * s)) by (nonlinear_arith);
    assert(j / 2 == c * s + q / 2);
    assert(q % 2 == j % 2);
    lemma_natural_parts(b, c, q / 2);
    let r: int = ntt::reversed(b, (q / 2) as nat) as int;
    lemma_block_parts(s, c, r);
    assert(ntt::reversed(t, q as nat) == r + (q % 2) * s);
    assert((q % 2) * s == (if q % 2 == 1 {
        s
    } else {
        0
    })) by (nonlinear_arith)
        requires
            q % 2 == 0 || q % 2 == 1,
    ;
}

} // verus!
