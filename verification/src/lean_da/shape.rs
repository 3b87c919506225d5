//! The shape of the committed blobs.
use crate::arith;
use crate::ext::DIMENSION;
use crate::lean_air::shape as air_shape;
use vstd::arithmetic::power2::*;
use vstd::prelude::*;

verus! {

/// The number of base field elements of a digest.
pub const DIGEST_LEN: usize = 8;

/// The number of extension field elements of a cell, unless another is asked for.
pub const DEFAULT_CELL_LEN_EXT: usize = 16;

/// `n_rows` blobs of `2^log_m` extension field elements, cut into cells of `cell_len_ext` elements.
#[derive(Clone, Copy, Debug, PartialEq, Eq, Structural)]
pub struct LeanAirShape {
    pub log_m: usize,
    pub n_rows: usize,
    pub cell_len_ext: usize,
}

impl LeanAirShape {
    /// The same shape for the table of hash rows.
    pub open spec fn air(self) -> air_shape::LeanAirShape {
        air_shape::LeanAirShape { log_m: self.log_m, n_rows: self.n_rows, cell_len_ext: self.cell_len_ext }
    }

    /// The same shape for the table of hash rows.
    pub fn to_air(self) -> (r: air_shape::LeanAirShape)
        ensures
            r == self.air(),
    {
        air_shape::LeanAirShape { log_m: self.log_m, n_rows: self.n_rows, cell_len_ext: self.cell_len_ext }
    }

    /// A shape with cells of [`DEFAULT_CELL_LEN_EXT`] elements.
    pub fn new(log_m: usize, n_rows: usize) -> (r: LeanAirShape)
        ensures
            r == (LeanAirShape { log_m, n_rows, cell_len_ext: DEFAULT_CELL_LEN_EXT }),
    {
        LeanAirShape { log_m, n_rows, cell_len_ext: DEFAULT_CELL_LEN_EXT }
    }

    /// The number of extension field elements of a blob.
    pub fn message_len_ext(self) -> (r: usize)
        requires
            pow2(self.log_m as nat) <= usize::MAX,
        ensures
            r == pow2(self.log_m as nat),
    {
        arith::power_of_two(self.log_m)
    }

    /// The number of extension field elements of a codeword.
    pub fn codeword_len_ext(self) -> (r: usize)
        requires
            2 * pow2(self.log_m as nat) <= usize::MAX,
        ensures
            r == 2 * pow2(self.log_m as nat),
    {
        2 * self.message_len_ext()
    }

    /// The number of rows, padded to a power of two.
    pub fn padded_rows(self) -> (r: usize)
        requires
            arith::next_pow2(self.n_rows as nat) <= usize::MAX,
        ensures
            r == arith::next_pow2(self.n_rows as nat),
    {
        arith::next_power_of_two(self.n_rows)
    }

    /// The number of cells of a codeword.
    pub fn num_cells(self) -> (r: usize)
        requires
            2 * pow2(self.log_m as nat) <= usize::MAX,
            self.cell_len_ext > 0,
            (2 * pow2(self.log_m as nat)) % (self.cell_len_ext as nat) == 0,
        ensures
            r == self.air().cells(),
            r * self.cell_len_ext == 2 * pow2(self.log_m as nat),
    {
        let len: usize = self.codeword_len_ext();
        proof {
            vstd::arithmetic::div_mod::lemma_fundamental_div_mod(len as int, self.cell_len_ext as int);
            vstd::arithmetic::mul::lemma_mul_is_commutative(
                self.cell_len_ext as int,
                len as int / self.cell_len_ext as int,
            );
        }
        len / self.cell_len_ext
    }

    /// The number of cells of the first half of a codeword.
    pub fn num_systematic_cells(self) -> (r: usize)
        requires
            pow2(self.log_m as nat) <= usize::MAX,
            self.cell_len_ext > 0,
            pow2(self.log_m as nat) % (self.cell_len_ext as nat) == 0,
        ensures
            r == self.air().systematic_cells(),
            r * self.cell_len_ext == pow2(self.log_m as nat),
    {
        let len: usize = self.message_len_ext();
        proof {
            vstd::arithmetic::div_mod::lemma_fundamental_div_mod(len as int, self.cell_len_ext as int);
            vstd::arithmetic::mul::lemma_mul_is_commutative(
                self.cell_len_ext as int,
                len as int / self.cell_len_ext as int,
            );
        }
        len / self.cell_len_ext
    }

    /// The number of base field elements of a cell.
    pub fn cell_len_base(self) -> (r: usize)
        requires
            self.cell_len_ext * 5 <= usize::MAX,
        ensures
            r == self.cell_len_ext * 5,
    {
        self.cell_len_ext * DIMENSION
    }

    /// The number of base field elements of a codeword.
    pub fn codeword_len_base(self) -> (r: usize)
        requires
            10 * pow2(self.log_m as nat) <= usize::MAX,
        ensures
            r == 10 * pow2(self.log_m as nat),
    {
        self.codeword_len_ext() * DIMENSION
    }

    /// The number of base field elements of all blobs.
    pub fn data_len_base(self) -> (r: usize)
        requires
            pow2(self.log_m as nat) <= usize::MAX,
            self.n_rows * pow2(self.log_m as nat) * 5 <= usize::MAX,
        ensures
            r == self.n_rows * pow2(self.log_m as nat) * 5,
            2 * r == self.n_rows * (5 * self.air().codeword_len()),
    {
        proof {
            assert(self.n_rows * pow2(self.log_m as nat) >= 0) by (nonlinear_arith);
            let (n, m) = (self.n_rows as int, pow2(self.log_m as nat) as int);
            assert(2 * (n * m * 5) == n * (5 * (2 * m))) by (nonlinear_arith);
        }
        self.n_rows * self.message_len_ext() * DIMENSION
    }
}

} // verus!
