use leanda::arith::{checked_next_power_of_two, checked_power_of_two, log2_ceil, log2_strict};
use leanda::ext::EF;
use leanda::field::{F, MODULUS};
use leanda::lagrange::lagrange_basis_evals;
use leanda::lean_air::sparse::{
    fold_sparse_column, is_strictly_sorted_sparse, merge_sorted_sparse_columns, merge_sparse_coefficients, SparseCoeff,
};
use leanda::mle::{eq_poly_outside, eval_eq, mle_of_zeros_then_ones};
use leanda::ntt::{ntt, reverse_bits, two_adic_generator};
use leanda::poly::DensePolynomial;
use leanda::product_computation::{
    compute_product_sumcheck_polynomial, compute_product_sumcheck_polynomial_base_ext_packed,
    fold_and_compute_product_sumcheck_polynomial, fold_and_compute_product_sumcheck_polynomial_extension_packed_in_place,
    fold_product_extension_packed_in_place, run_product_sumcheck, sumcheck_quadratic, ProductComputation,
};

fn ext(seed: u64) -> EF {
    let mut state = seed.wrapping_mul(0x9e37_79b9_7f4a_7c15).wrapping_add(17);
    let mut next = || {
        state = state.wrapping_mul(6364136223846793005).wrapping_add(1442695040888963407);
        F::from_u64(state >> 20)
    };
    EF::from_basis_coefficients([next(), next(), next(), next(), next()])
}

fn dot(a: &[EF], b: &[EF]) -> EF {
    a.iter().zip(b).fold(EF::zero(), |acc, (x, y)| acc.add(x.mul(*y)))
}

#[test]
fn field_arithmetic() {
    let p = MODULUS;
    assert_eq!(F::new(p - 1).add(F::new(2)), F::one());
    assert_eq!(F::zero().sub(F::one()), F::new(p - 1));
    assert_eq!(F::new(p - 1).mul(F::new(p - 1)), F::one());
    assert_eq!(F::new(3).negate(), F::new(p - 3));
    assert_eq!(F::new(7).mul(F::new(7).inverse()), F::one());
    assert_eq!(F::new(2).cube(), F::new(8));
    assert_eq!(F::reduce_signed_product_sum(-1), F::new(p - 1));
    assert_eq!(F::reduce_product_sum(p as u128 * 5 + 4), F::new(4));
    assert_eq!(two_adic_generator(0), F::one());
    assert_eq!(two_adic_generator(1), F::new(p - 1));
}

#[test]
fn extension_arithmetic() {
    let x = EF::basis(1);
    // The fifth power of the generator is one minus its square.
    let fifth = x.mul(x).mul(x).mul(x).mul(x);
    assert_eq!(fifth, EF::one().sub(x.square()));
    assert_eq!(x.shift(), x.square());
    let a = ext(1);
    let b = ext(2);
    assert_eq!(a.mul(b), b.mul(a));
    assert_eq!(a.mul(a.try_inverse().unwrap()), EF::one());
    assert!(EF::zero().try_inverse().is_none());
    assert_eq!(a.double(), a.add(a));
    assert_eq!(a.cube(), a.mul(a).mul(a));
    assert_eq!(a.add(a.negate()), EF::zero());
    assert_eq!(a.scale(F::new(3)), a.add(a).add(a));
}

#[test]
fn every_element_but_zero_has_an_inverse() {
    assert!(EF::zero().try_inverse().is_none());
    for seed in 1..40 {
        let x = ext(seed);
        let y = x.try_inverse().unwrap();
        assert_eq!(x.mul(y), EF::one());
    }
    // The generator raised to the characteristic is one of its four conjugates.
    let image = EF::from_basis_coefficients([
        F::new(1576402667),
        F::new(1173144480),
        F::new(1567662457),
        F::new(1206866823),
        F::new(2428146),
    ]);
    let mut power = EF::one();
    for bit in (0..31).rev() {
        power = power.square();
        if (MODULUS >> bit) & 1 == 1 {
            power = power.mul(EF::basis(1));
        }
    }
    assert_eq!(power, image);
    let fifth = image.square().square().mul(image);
    assert_eq!(fifth.add(image.square()), EF::one());
}

#[test]
fn powers_and_logarithms() {
    assert_eq!(log2_ceil(1), 0);
    assert_eq!(log2_ceil(5), 3);
    assert_eq!(log2_strict(64), 6);
    assert_eq!(checked_power_of_two(63), Some(1 << 63));
    assert_eq!(checked_power_of_two(64), None);
    assert_eq!(checked_next_power_of_two(0), Some(1));
    assert_eq!(checked_next_power_of_two(1 << 63), Some(1 << 63));
    assert_eq!(checked_next_power_of_two((1 << 63) + 1), None);
    assert_eq!(reverse_bits(3, 6), 3);
}

#[test]
fn transform_evaluates() {
    let mut a: Vec<EF> = (0..8).map(ext).collect();
    let coefficients = a.clone();
    ntt(&mut a);
    let w = two_adic_generator(3);
    let mut x = F::one();
    for value in &a {
        let expected = coefficients.iter().rev().fold(EF::zero(), |acc, c| acc.scale(x).add(*c));
        assert_eq!(*value, expected);
        x = x.mul(w);
    }
}

#[test]
fn round_of_products() {
    let p0: Vec<EF> = (0..8).map(ext).collect();
    let p1: Vec<EF> = (8..16).map(ext).collect();
    let sum = dot(&p0, &p1);
    let round = compute_product_sumcheck_polynomial(&p0, &p1, sum);
    assert_eq!(round.coeffs.len(), 3);
    assert_eq!(round.evaluate(EF::zero()), dot(&p0[..4], &p1[..4]));
    assert_eq!(round.evaluate(EF::one()), dot(&p0[4..], &p1[4..]));
    assert_eq!(round.evaluate(EF::zero()).add(round.evaluate(EF::one())), sum);
    let (c0, c2) = sumcheck_quadratic(p0[0], p0[4], p1[0], p1[4]);
    assert_eq!(c0, p0[0].mul(p1[0]));
    assert_eq!(c2, p0[4].sub(p0[0]).mul(p1[4].sub(p1[0])));
    assert_eq!(ProductComputation.degree(), 2);
    assert_eq!(ProductComputation.eval_extension(&vec![ext(1), ext(2)]), ext(1).mul(ext(2)));
}

#[test]
fn base_values_give_the_same_round() {
    let base: Vec<F> = (0..8).map(|i| F::new(MODULUS - 1 - i)).collect();
    let lifted: Vec<EF> = base.iter().map(|x| EF::from_base(*x)).collect();
    let weights: Vec<EF> = (20..28).map(ext).collect();
    let sum = dot(&lifted, &weights);
    let expected = compute_product_sumcheck_polynomial(&lifted, &weights, sum);
    assert_eq!(compute_product_sumcheck_polynomial(&base, &weights, sum).coeffs, expected.coeffs);
    assert_eq!(
        compute_product_sumcheck_polynomial_base_ext_packed(&base, &weights, sum).coeffs,
        expected.coeffs
    );
}

#[test]
fn folding_in_place_is_folding() {
    let p0: Vec<EF> = (0..8).map(ext).collect();
    let p1: Vec<EF> = (8..16).map(ext).collect();
    let r = ext(99);
    let sum = ext(100);
    let (poly, f0, f1) = fold_and_compute_product_sumcheck_polynomial(&p0, &p1, r, sum);
    let (mut q0, mut q1) = (p0.clone(), p1.clone());
    let in_place = fold_and_compute_product_sumcheck_polynomial_extension_packed_in_place(&mut q0, &mut q1, r, sum);
    assert_eq!(in_place.coeffs, poly.coeffs);
    assert_eq!(q0, f0);
    assert_eq!(q1, f1);
    let (mut q0, mut q1) = (p0.clone(), p1);
    fold_product_extension_packed_in_place(&mut q0, &mut q1, r);
    assert_eq!(q0, f0);
    assert_eq!(f0[1], p0[1].add(r.mul(p0[5].sub(p0[1]))));
}

#[test]
fn a_true_sum_stays_true() {
    let p0: Vec<F> = (0..16).map(|i| F::new(1000 + i)).collect();
    let p1: Vec<EF> = (30..46).map(ext).collect();
    let lifted: Vec<EF> = p0.iter().map(|x| EF::from_base(*x)).collect();
    let challenges: Vec<EF> = (50..54).map(ext).collect();
    let run = run_product_sumcheck(&p0, &p1, dot(&lifted, &p1), &challenges);
    assert_eq!(run.polys.len(), 4);
    assert_eq!(run.evals.len(), 1);
    assert_eq!(run.sum, run.evals[0].mul(run.weights[0]));
    // The highest variable is set first, so the weight of the first challenge is that of the
    // highest digit.
    let weights = eval_eq(&challenges);
    assert_eq!(run.evals[0], dot(&weights, &lifted));
    let one = run_product_sumcheck(&p0, &p1, dot(&lifted, &p1), &challenges[..1].to_vec());
    assert_eq!(one.evals.len(), 8);
    assert_eq!(one.sum, dot(&one.evals, &one.weights));
}

#[test]
fn interpolation_and_weights() {
    let values: Vec<EF> = (60..66).map(ext).collect();
    let p = DensePolynomial::interpolate(&values);
    for (i, value) in values.iter().enumerate() {
        assert_eq!(p.evaluate(EF::from_base(F::from_usize(i))), *value);
    }
    let nodes: Vec<F> = (0..6).map(F::from_usize).collect();
    let weights = lagrange_basis_evals(&nodes, &vec![F::new(9), F::new(2)]);
    let at = |t: usize| values.iter().zip(&weights[t]).fold(EF::zero(), |acc, (v, w)| acc.add(v.scale(*w)));
    assert_eq!(at(0), p.evaluate(EF::from_base(F::new(9))));
    assert_eq!(at(1), values[2]);
}

#[test]
fn multilinear_values() {
    let point = vec![ext(1), ext(2), ext(3)];
    let weights = eval_eq(&point);
    assert_eq!(weights.iter().fold(EF::zero(), |a, b| a.add(*b)), EF::one());
    assert_eq!(weights[5], ext(1).mul(EF::one().sub(ext(2))).mul(ext(3)));
    for n in 0..=8 {
        let expected = weights[n..].iter().fold(EF::zero(), |a, b| a.add(*b));
        assert_eq!(mle_of_zeros_then_ones(n, &point), expected);
    }
    let other = vec![ext(4), ext(5), ext(6)];
    assert_eq!(eq_poly_outside(&point, &other), dot(&weights, &eval_eq(&other)));
}

#[test]
fn sparse_columns() {
    let term = |row: usize, coeff: EF| SparseCoeff { row, coeff };
    let mut column = vec![term(3, ext(1)), term(1, ext(2)), term(3, ext(3)), term(2, ext(4)), term(2, ext(4).negate())];
    merge_sparse_coefficients(&mut column, 4);
    assert!(is_strictly_sorted_sparse(&column));
    assert_eq!(column.len(), 2);
    assert_eq!((column[0].row, column[0].coeff), (1, ext(2)));
    assert_eq!((column[1].row, column[1].coeff), (3, ext(1).add(ext(3))));
    let other = vec![term(0, ext(5)), term(3, ext(6))];
    merge_sorted_sparse_columns(&mut column, &other);
    assert_eq!(column.iter().map(|c| c.row).collect::<Vec<_>>(), vec![0, 1, 3]);
    let r = ext(7);
    fold_sparse_column(&mut column, r);
    assert_eq!(column[0].coeff, ext(5).add(r.mul(ext(2).sub(ext(5)))));
    assert_eq!(column[1].row, 1);
    assert_eq!(column[1].coeff, r.mul(ext(1).add(ext(3)).add(ext(6))));
}
