pub mod algebra;
pub mod arith;
pub mod bench;
pub mod binomial;
pub mod ext;
pub mod field;
pub mod frobenius;
pub mod gpu;
pub mod hashing;
pub mod inverse;
pub mod lagrange;
pub mod lean_air;
pub mod lean_da;
pub mod mle;
pub mod ntt;
pub mod permutation;
pub mod poly;
pub mod poseidon;
pub mod product_computation;
pub mod stages;
pub mod sums;
pub mod text;
pub mod timeline;
pub mod traffic;
pub mod units;
