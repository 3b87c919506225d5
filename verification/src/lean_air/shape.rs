//! The shape of the committed data.
use crate::arith;
use crate::ext::DIMENSION;
use crate::poseidon::DIGEST_LEN;
use vstd::arithmetic::div_mod::*;
use vstd::arithmetic::power2::*;
use vstd::prelude::*;

verus! {

/// The number of extension field elements of a cell, unless another is asked for.
pub const DEFAULT_CELL_LEN_EXT: usize = 16;

/// `n_rows` codewords of messages of `2^log_m` extension field elements, cut into cells of
/// `cell_len_ext` elements.
#[derive(Clone, Copy, Debug, PartialEq, Eq, Structural)]
pub struct LeanAirShape {
    pub log_m: usize,
    pub n_rows: usize,
    pub cell_len_ext: usize,
}

impl LeanAirShape {
    /// The number of extension field elements of a message.
    pub open spec fn message_len(self) -> nat {
        pow2(self.log_m as nat)
    }

    /// The number of extension field elements of a codeword.
    pub open spec fn codeword_len(self) -> nat {
        2 * self.message_len()
    }

    /// The number of rows, padded to a power of two.
    pub open spec fn padded(self) -> nat {
        arith::next_pow2(self.n_rows as nat)
    }

    /// The number of cells of a codeword.
    pub open spec fn cells(self) -> nat {
        self.codeword_len() / (self.cell_len_ext as nat)
    }

    /// The number of cells of the first half of a codeword.
    pub open spec fn systematic_cells(self) -> nat {
        self.message_len() / (self.cell_len_ext as nat)
    }

    /// The number of base field elements of a cell.
    pub open spec fn cell_base(self) -> nat {
        self.cell_len_ext as nat * 5
    }

    /// The conditions on a shape: at least one row, cells that divide the message, and cells whose
    /// base field elements fill whole digests.
    pub open spec fn valid(self) -> bool {
        &&& self.n_rows > 0
        &&& self.cell_len_ext > 0
        &&& self.message_len() % (self.cell_len_ext as nat) == 0
        &&& self.cell_base() % (DIGEST_LEN as nat) == 0
    }

    /// The number of hash rows of a cell.
    pub open spec fn chunks(self) -> nat {
        if self.cell_base() <= 16 {
            1
        } else {
            1 + (self.cell_base() - 16 + 7) as nat / 8
        }
    }

    /// The number of hash rows of all cells; the rows of the chains over the cells of a codeword
    /// start here.
    pub open spec fn systematic_start(self) -> nat {
        self.n_rows as nat * self.cells() * self.chunks()
    }

    /// The first row of the chain over the codewords.
    pub open spec fn row_root_start(self) -> nat {
        self.systematic_start() + self.n_rows as nat * self.systematic_cells()
    }

    /// The first row of the trees over the cells of a column.
    pub open spec fn column_merkle_start(self) -> nat {
        self.row_root_start() + self.n_rows as nat
    }

    /// The first row of the tree over the columns.
    pub open spec fn column_root_start(self) -> nat {
        self.column_merkle_start() + self.cells() * (self.padded() - 1) as nat
    }

    /// The row of the last compression.
    pub open spec fn final_row(self) -> int {
        self.column_root_start() + self.cells() - 1
    }

    /// The number of hash rows.
    pub open spec fn total_rows(self) -> int {
        self.final_row() + 1
    }

    /// The number of rows of the table: a power of two above the number of hash rows.
    pub open spec fn table_rows(self) -> nat {
        arith::next_pow2((self.total_rows() + 1) as nat)
    }

    /// What the limits of the machine ask of a shape whose hash rows are numbered.
    pub open spec fn fits_rows(self) -> bool {
        &&& self.codeword_len() <= usize::MAX
        &&& self.cell_base() <= usize::MAX
        &&& self.padded() <= usize::MAX
        &&& self.total_rows() <= usize::MAX
    }

    /// What they ask of a shape whose rows are padded to those of a table.
    pub open spec fn fits(self) -> bool {
        &&& self.fits_rows()
        &&& self.table_rows() <= usize::MAX
    }

    /// What they ask of a shape whose data is laid out in a table: the base field elements of a codeword are
    /// numbered too.
    pub open spec fn fits_data(self) -> bool {
        &&& self.fits()
        &&& 5 * self.codeword_len() <= usize::MAX
    }

    /// A shape with cells of [`DEFAULT_CELL_LEN_EXT`] elements.
    pub fn new(log_m: usize, n_rows: usize) -> (r: LeanAirShape)
        requires
            pow2(log_m as nat) <= usize::MAX,
            (LeanAirShape { log_m, n_rows, cell_len_ext: DEFAULT_CELL_LEN_EXT }).valid(),
        ensures
            r == (LeanAirShape { log_m, n_rows, cell_len_ext: DEFAULT_CELL_LEN_EXT }),
    {
        Self::with_cell_len(log_m, n_rows, DEFAULT_CELL_LEN_EXT)
    }

    /// A shape with cells of `cell_len_ext` elements.
    pub fn with_cell_len(log_m: usize, n_rows: usize, cell_len_ext: usize) -> (r: LeanAirShape)
        requires
            pow2(log_m as nat) <= usize::MAX,
            cell_len_ext * 5 <= usize::MAX,
            (LeanAirShape { log_m, n_rows, cell_len_ext }).valid(),
        ensures
            r == (LeanAirShape { log_m, n_rows, cell_len_ext }),
    {
        LeanAirShape { log_m, n_rows, cell_len_ext }
    }

    /// The shape that [`LeanAirShape::with_cell_len`] makes, where its conditions hold.
    pub fn checked(log_m: usize, n_rows: usize, cell_len_ext: usize) -> (r: Option<LeanAirShape>)
        ensures
            r is Some <==> {
                &&& pow2(log_m as nat) <= usize::MAX
                &&& cell_len_ext * 5 <= usize::MAX
                &&& (LeanAirShape { log_m, n_rows, cell_len_ext }).valid()
            },
            r matches Some(shape) ==> shape == (LeanAirShape { log_m, n_rows, cell_len_ext }),
    {
        let m: usize = match arith::checked_power_of_two(log_m) {
            Some(m) => m,
            None => {
                return None;
            },
        };
        if n_rows == 0 || cell_len_ext == 0 || cell_len_ext > usize::MAX / 5 {
            return None;
        }
        if m % cell_len_ext != 0 || (cell_len_ext * 5) % DIGEST_LEN != 0 {
            return None;
        }
        Some(LeanAirShape { log_m, n_rows, cell_len_ext })
    }

    pub fn message_len_ext(self) -> (r: usize)
        requires
            self.message_len() <= usize::MAX,
        ensures
            r == self.message_len(),
    {
        arith::power_of_two(self.log_m)
    }

    pub fn codeword_len_ext(self) -> (r: usize)
        requires
            self.codeword_len() <= usize::MAX,
        ensures
            r == self.codeword_len(),
    {
        2 * self.message_len_ext()
    }

    pub fn padded_rows(self) -> (r: usize)
        requires
            self.padded() <= usize::MAX,
        ensures
            r == self.padded(),
    {
        arith::next_power_of_two(self.n_rows)
    }

    pub fn num_cells(self) -> (r: usize)
        requires
            self.cell_len_ext > 0,
            self.codeword_len() <= usize::MAX,
        ensures
            r == self.cells(),
    {
        self.codeword_len_ext() / self.cell_len_ext
    }

    pub fn num_systematic_cells(self) -> (r: usize)
        requires
            self.cell_len_ext > 0,
            self.message_len() <= usize::MAX,
        ensures
            r == self.systematic_cells(),
    {
        self.message_len_ext() / self.cell_len_ext
    }

    pub fn cell_len_base(self) -> (r: usize)
        requires
            self.cell_base() <= usize::MAX,
        ensures
            r == self.cell_base(),
    {
        self.cell_len_ext * DIMENSION
    }

    pub fn codeword_len_base(self) -> (r: usize)
        requires
            5 * self.codeword_len() <= usize::MAX,
        ensures
            r == 5 * self.codeword_len(),
    {
        self.codeword_len_ext() * DIMENSION
    }

    /// The number of hash rows of a cell.
    pub fn chunks_per_cell(self) -> (r: usize)
        requires
            self.cell_base() <= usize::MAX,
        ensures
            r == self.chunks(),
    {
        let base: usize = self.cell_len_base();
        if base <= 2 * DIGEST_LEN {
            1
        } else {
            let tail: usize = base - 2 * DIGEST_LEN;
            1 + tail / DIGEST_LEN + (if tail % DIGEST_LEN == 0 {
                0
            } else {
                1
            })
        }
    }

    /// The number of hash rows, where it fits.
    fn checked_total_rows(self) -> (r: Option<usize>)
        requires
            self.valid(),
            self.codeword_len() <= usize::MAX,
            self.cell_base() <= usize::MAX,
            self.padded() <= usize::MAX,
        ensures
            r is Some <==> self.total_rows() <= usize::MAX,
            r matches Some(total) ==> total == self.total_rows(),
    {
        let cells: usize = self.num_cells();
        let systematic: usize = self.num_systematic_cells();
        let chunks: usize = self.chunks_per_cell();
        let padded: usize = self.padded_rows();
        proof {
            arith::lemma_next_pow2(self.n_rows as nat);
            let (n, c, h, s, p) = (self.n_rows as nat, cells as nat, chunks as nat, systematic as nat, padded as nat);
            assert(n * c <= n * c * h && n * s >= 0 && c * ((p - 1) as nat) >= 0) by (nonlinear_arith)
                requires
                    h >= 1,
            ;
        }
        let cell_hashes: usize = match self.n_rows.checked_mul(cells) {
            Some(x) => match x.checked_mul(chunks) {
                Some(x) => x,
                None => {
                    return None;
                },
            },
            None => {
                return None;
            },
        };
        let row_hashes: usize = match self.n_rows.checked_mul(systematic) {
            Some(x) => x,
            None => {
                return None;
            },
        };
        let column_hashes: usize = match cells.checked_mul(padded - 1) {
            Some(x) => x,
            None => {
                return None;
            },
        };
        let total: usize = match cell_hashes.checked_add(row_hashes) {
            Some(x) => x,
            None => {
                return None;
            },
        };
        let total: usize = match total.checked_add(self.n_rows) {
            Some(x) => x,
            None => {
                return None;
            },
        };
        let total: usize = match total.checked_add(column_hashes) {
            Some(x) => x,
            None => {
                return None;
            },
        };
        total.checked_add(cells)
    }

    /// Whether the machine can number the rows of the table of the shape.
    pub fn fits_machine(self) -> (r: bool)
        requires
            self.valid(),
        ensures
            r == self.fits(),
    {
        let m: usize = match arith::checked_power_of_two(self.log_m) {
            Some(m) => m,
            None => {
                return false;
            },
        };
        if m > usize::MAX / 2 || self.cell_len_ext > usize::MAX / 5 {
            return false;
        }
        if arith::checked_next_power_of_two(self.n_rows).is_none() {
            return false;
        }
        proof {
            arith::lemma_next_pow2((self.total_rows() + 1) as nat);
        }
        match self.checked_total_rows() {
            Some(total) => total < usize::MAX && arith::checked_next_power_of_two(total + 1).is_some(),
            None => false,
        }
    }

    /// Whether the machine can lay out the data of the shape, too.
    pub fn data_fits_machine(self) -> (r: bool)
        requires
            self.valid(),
        ensures
            r == self.fits_data(),
    {
        self.fits_machine() && self.codeword_len_ext() <= usize::MAX / DIMENSION
    }
}

/// The least power of two that is at least a number and of the form `2^k` is determined by `k`;
/// of a divisor of a power of two, the quotient is a power of two too.
pub proof fn lemma_power_divisor(a: nat, d: nat) -> (b: nat)
    requires
        d > 0,
        pow2(a) % d == 0,
    ensures
        b <= a,
        d == pow2(b),
        pow2(a) / d == pow2((a - b) as nat),
    decreases a,
{
    lemma2_to64();
    let n: nat = pow2(a);
    lemma_pow2_pos(a);
    lemma_fundamental_div_mod(n as int, d as int);
    let q: nat = n / d;
    assert(n == d * q);
    if a == 0 {
        assert(d == 1 && q == 1) by (nonlinear_arith)
            requires
                d * q == 1,
                d > 0,
        ;
        0
    } else {
        let h: nat = pow2((a - 1) as nat);
        lemma_pow2_unfold(a);
        if d % 2 == 0 {
            let e: nat = d / 2;
            assert(h == e * q) by (nonlinear_arith)
                requires
                    2 * h == d * q,
                    d == 2 * e,
            ;
            lemma_fundamental_div_mod_converse(h as int, e as int, q as int, 0);
            let b = lemma_power_divisor((a - 1) as nat, e);
            lemma_pow2_unfold(b + 1);
            assert((a - 1 - b) as nat == (a - (b + 1)) as nat);
            b + 1
        } else {
            if q % 2 == 1 {
                let d2: int = (d / 2) as int;
                let q2: int = (q / 2) as int;
                assert(d * q == 2 * (2 * d2 * q2 + d2 + q2) + 1) by (nonlinear_arith)
                    requires
                        d == 2 * d2 + 1,
                        q == 2 * q2 + 1,
                ;
                assert(false);
            }
            let p: nat = q / 2;
            assert(h == d * p) by (nonlinear_arith)
                requires
                    2 * h == d * q,
                    q == 2 * p,
            ;
            lemma_fundamental_div_mod_converse(h as int, d as int, p as int, 0);
            let b = lemma_power_divisor((a - 1) as nat, d);
            lemma_pow2_unfold((a - b) as nat);
            b
        }
    }
}

/// Of a valid shape, the cells of a codeword are twice those of its first half, their numbers and
/// the length of a cell are powers of two, and a cell has more than two digests of base field
/// elements.
pub proof fn lemma_shape(shape: LeanAirShape) -> (log_cell: nat)
    requires
        shape.valid(),
    ensures
        3 <= log_cell <= shape.log_m,
        shape.cell_len_ext == pow2(log_cell),
        shape.systematic_cells() == pow2((shape.log_m - log_cell) as nat),
        shape.cells() == pow2((shape.log_m - log_cell + 1) as nat),
        shape.cells() == 2 * shape.systematic_cells(),
        shape.cells() >= 2,
        shape.systematic_cells() >= 1,
        shape.systematic_cells() * shape.cell_len_ext == shape.message_len(),
        shape.cells() * shape.cell_len_ext == shape.codeword_len(),
        shape.cell_len_ext >= 8,
        shape.cell_len_ext % 8 == 0,
        shape.chunks() == (shape.cell_base() - 8) / 8,
        shape.cell_base() == 16 + 8 * (shape.chunks() - 1),
        shape.chunks() >= 4,
        shape.padded() >= 1,
        shape.n_rows <= shape.padded(),
{
    let c: nat = shape.cell_len_ext as nat;
    let b = lemma_power_divisor(shape.log_m as nat, c);
    lemma2_to64();
    // Five is odd, so eight divides the cell length.
    assert(c % 8 == 0);
    if b < 3 {
        arith::lemma_pow2_monotone(b, 2);
        assert(false);
    }
    let m: nat = shape.message_len();
    let s: nat = shape.systematic_cells();
    lemma_fundamental_div_mod(m as int, c as int);
    assert(m == s * c) by (nonlinear_arith)
        requires
            m == c * s,
    ;
    lemma_pow2_unfold((shape.log_m - b + 1) as nat);
    assert(shape.codeword_len() == (2 * s) * c) by (nonlinear_arith)
        requires
            m == s * c,
            shape.codeword_len() == 2 * m,
    ;
    lemma_fundamental_div_mod_converse(shape.codeword_len() as int, c as int, (2 * s) as int, 0);
    lemma_pow2_pos((shape.log_m - b) as nat);
    arith::lemma_next_pow2(shape.n_rows as nat);
    b
}

} // verus!
