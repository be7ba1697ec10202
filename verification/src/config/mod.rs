//! Security parameters and the row-code geometry they choose.

pub mod laws;

use vstd::arithmetic::power2::*;
use vstd::prelude::*;

use crate::bits;
use crate::errors;
use crate::trace;

verus! {

/// Production soundness floor, in bits.
pub const MIN_PRODUCTION_BITS: usize = 110;

/// Precision of `log2_ratio_fixed`: the fraction bits it computes.
pub const LOG2_FRAC_BITS: u32 = 32;

/// The outer code has rate `2^-OUTER_RATE_LOG2`.
pub const OUTER_RATE_LOG2: u32 = 4;

/// Rows of the outer code's message matrix.
pub const OUTER_ROWS: usize = 32;

/// One in the fixed-point format of the mantissa, `2^60`.
pub const ONE: u128 = 0x1000000000000000;

/// What makes a configuration unacceptable.
#[derive(Clone, Copy, Debug, PartialEq, Eq, Structural)]
pub enum Error {
    /// Estimated security fell below `min_security_bits`.
    SecurityTooLow { estimated_bits: usize, min_bits: usize },
    /// The random support is shorter than the number of opened columns, so
    /// they would exhaust the noise.
    InsufficientSupport { ldt_support_size: usize, num_queries: usize },
    /// `inv_rate` is not a power of two of at least two.
    InvalidInvRate { inv_rate: usize },
    /// The outer statement masks nothing.
    EmptyOuterStatement,
    /// The outer code would be opened nowhere.
    ZeroOuterQueries,
    /// The outer code does not fit the largest domain.
    OuterDomainTooLarge { code_len: usize, max_log2: u32 },
}

/// Row-code geometry of one table.
#[derive(Clone, Copy, Debug, PartialEq, Eq, Structural)]
pub struct TableGeom {
    /// Length of the random low-coordinate support.
    pub support_size: usize,
    /// Committed codeword width.
    pub encoded_width: usize,
}

#[derive(Clone, Copy, Debug, PartialEq, Eq, Structural)]
pub struct Config {
    /// The row code has rate `1 / inv_rate`; a power of two.
    pub inv_rate: usize,
    /// Number of spot-check queries of the low-degree test.
    pub num_queries: usize,
    /// Blinding columns of the sum-check; they extend the trace.
    pub sumcheck_blinding_factor: usize,
    /// Random low-coordinate support that masks opened columns. It lives
    /// inside the message and does not widen the codeword.
    pub ldt_support_size: usize,
    /// `check_security` rejects configurations below this many bits.
    pub min_security_bits: usize,
    /// Number of columns opened of the outer code.
    pub outer_queries: usize,
}

// ---------------------------------------------------------------
// Logarithms in fixed point
// ---------------------------------------------------------------

/// How often `m` can be doubled without passing `n`.
pub open spec fn doublings(n: nat, m: nat) -> nat
    decreases n - m,
{
    if m == 0 || 2 * m > n {
        0
    } else {
        1 + doublings(n, 2 * m)
    }
}

/// A mantissa squared, rounded down.
pub open spec fn squared(y: nat) -> nat {
    y * y / ONE as nat
}

/// The first `k` binary digits of the logarithm of a mantissa, as a number:
/// squaring doubles the logarithm, and the mantissa passes two where the next
/// digit is one.
pub open spec fn fraction(y: nat, k: nat) -> nat
    decreases k,
{
    if k == 0 {
        0
    } else {
        let s = squared(y);
        if s >= 2 * ONE {
            pow2((k - 1) as nat) + fraction(s / 2, (k - 1) as nat)
        } else {
            fraction(s, (k - 1) as nat)
        }
    }
}

/// The mantissa of `n / m`.
pub open spec fn mantissa(n: nat, m: nat) -> nat {
    n * ONE as nat / (m * pow2(doublings(n, m)))
}

/// `log2(n / m)` in fixed point with 32 fraction bits, every step rounded
/// down.
pub open spec fn log2_fixed(n: nat, m: nat) -> nat {
    doublings(n, m) * 0x100000000 + fraction(mantissa(n, m), 32)
}

pub proof fn lemma_doublings(n: nat, m: nat)
    requires
        0 < m,
    ensures
        m <= n ==> m * pow2(doublings(n, m)) <= n < 2 * (m * pow2(doublings(n, m))),
        m > n ==> doublings(n, m) == 0,
    decreases n - m,
{
    lemma2_to64();
    if 2 * m <= n {
        lemma_doublings(n, 2 * m);
        let d = doublings(n, 2 * m);
        lemma_pow2_unfold(d + 1);
        assert((2 * m) * pow2(d) == m * (2 * pow2(d))) by (nonlinear_arith);
    } else {
        assert(m * pow2(0) == m);
    }
}

proof fn lemma_fraction_bound(y: nat, k: nat)
    ensures
        fraction(y, k) < pow2(k),
    decreases k,
{
    lemma2_to64();
    if k > 0 {
        lemma_pow2_unfold(k);
        let s = squared(y);
        if s >= 2 * ONE {
            lemma_fraction_bound(s / 2, (k - 1) as nat);
        } else {
            lemma_fraction_bound(s, (k - 1) as nat);
        }
    }
}

/// `log2(n / m) · 2^32` for `m >= 1`, rounded down at every step. The
/// mantissa has 60 fraction bits, so its square stays below `2^122`.
pub fn log2_ratio_fixed(n: u128, m: u128) -> (r: u128)
    requires
        m >= 1,
        n < 0x100000000000000000,
        m < 0x100000000000000000,
    ensures
        r == log2_fixed(n as nat, m as nat),
        r < 0x4500000000,
{
    let mut scaled_m: u128 = m;
    let mut int_part: u128 = 0;
    proof {
        lemma2_to64();
        assert(m * pow2(0) == m);
    }
    while scaled_m <= n / 2
        invariant
            0 < scaled_m < 0x100000000000000000,
            n < 0x100000000000000000,
            int_part < 69,
            m >= 1,
            scaled_m == m * pow2(int_part as nat),
            doublings(n as nat, m as nat) == int_part + doublings(n as nat, scaled_m as nat),
        decreases n - scaled_m,
    {
        proof {
            lemma_pow2_unfold(int_part as nat + 1);
            let p = pow2(int_part as nat);
            assert(2 * (m * p) == m * (2 * p)) by (nonlinear_arith);
            assert(2 * (m * p) >= 2 * p) by (nonlinear_arith)
                requires
                    m >= 1,
            ;
            if int_part >= 68 {
                bits::lemma_pow2_monotone(68, int_part as nat);
                lemma2_to64();
                lemma2_to64_rest();
                lemma_pow2_adds(60, 8);
                assert(pow2(68) == 0x100000000000000000) by (nonlinear_arith)
                    requires
                        pow2(68) == pow2(60) * pow2(8),
                        pow2(60) == 0x1000000000000000,
                        pow2(8) == 0x100,
                ;
            }
        }
        scaled_m = scaled_m * 2;
        int_part = int_part + 1;
    }
    proof {
        lemma_doublings(n as nat, m as nat);
        assert(doublings(n as nat, scaled_m as nat) == 0);
        assert((n * ONE) / (scaled_m as int) < 2 * ONE) by (nonlinear_arith)
            requires
                n < 2 * scaled_m,
                scaled_m > 0,
                ONE > 0,
        ;
    }
    let mut y: u128 = n * ONE / scaled_m;
    let mut frac: u128 = 0;
    let mut weight: u128 = 0x80000000;
    let mut i: u32 = 0;
    proof {
        lemma2_to64();
        lemma_fraction_bound(mantissa(n as nat, m as nat), 32);
    }
    while i < LOG2_FRAC_BITS
        invariant
            i <= 32,
            i < 32 ==> weight as nat == pow2((31 - i) as nat),
            y < 2 * ONE,
            fraction(mantissa(n as nat, m as nat), 32) == frac + fraction(
                y as nat,
                (32 - i) as nat,
            ),
            fraction(mantissa(n as nat, m as nat), 32) < 0x100000000,
        decreases 32 - i,
    {
        proof {
            assert(y * y < 4 * ONE * ONE) by (nonlinear_arith)
                requires
                    0 <= y < 2 * ONE,
            ;
            if i < 31 {
                lemma_pow2_unfold((31 - i) as nat);
            }
        }
        y = y * y / ONE;
        if y >= 2 * ONE {
            y = y / 2;
            frac = frac + weight;
        }
        weight = weight / 2;
        i = i + 1;
    }
    int_part * 0x100000000 + frac
}

// ---------------------------------------------------------------
// The low-degree test
// ---------------------------------------------------------------

/// `floor(-log2((msg / code)^queries))`, with the logarithm in fixed point;
/// zero where the code has no distance.
pub open spec fn proximity_bits(queries: nat, msg: nat, code: nat) -> nat {
    if msg >= code {
        0
    } else {
        queries * log2_fixed(code, msg) / 0x100000000
    }
}

impl Config {
    /// Bits that the low-degree test gives this message and code length.
    pub open spec fn bits_at(self, msg: nat, code: nat) -> usize {
        proximity_bits(self.num_queries as nat, msg, code) as usize
    }

    /// The fractional support fits the grid and reaches the production floor.
    pub open spec fn fractional(self, grid_cols: nat) -> bool {
        &&& self.ldt_support_size <= grid_cols
        &&& self.bits_at(
            self.ldt_support_size as nat + grid_cols,
            grid_cols * self.inv_rate as nat,
        ) >= MIN_PRODUCTION_BITS
    }

    /// The support chosen for a grid.
    pub open spec fn support(self, grid_cols: nat) -> nat {
        if self.fractional(grid_cols) {
            self.ldt_support_size as nat
        } else {
            grid_cols
        }
    }

    /// The code width chosen for a grid.
    pub open spec fn width(self, grid_cols: nat) -> nat {
        if self.fractional(grid_cols) {
            grid_cols * self.inv_rate as nat
        } else {
            grid_cols * self.inv_rate as nat * 2
        }
    }

    /// The geometry for a grid is within machine range.
    pub open spec fn fits(self, grid_cols: nat) -> bool {
        &&& grid_cols * self.inv_rate as nat <= usize::MAX
        &&& self.ldt_support_size + grid_cols <= usize::MAX
        &&& self.support(grid_cols) + grid_cols <= usize::MAX
        &&& self.width(grid_cols) <= usize::MAX
    }

    /// The code rate is the inverse of a power of two of at least two.
    pub open spec fn rate_ok(self) -> bool {
        self.inv_rate >= 2 && bits::is_power_of_two(self.inv_rate as nat)
    }

    /// The bits estimated for a grid: those of the low-degree test, capped at
    /// the field size.
    pub open spec fn estimated(self, field_bits: usize, grid_cols: nat) -> usize {
        let b = self.bits_at(self.support(grid_cols) + grid_cols, self.width(grid_cols));
        if b <= field_bits {
            b
        } else {
            field_bits
        }
    }

    /// What is wrong with the configuration at a grid.
    pub open spec fn fault(self, field_bits: usize, grid_cols: nat) -> Option<Error> {
        if !self.rate_ok() {
            Some(Error::InvalidInvRate { inv_rate: self.inv_rate })
        } else if self.min_security_bits > 0 && self.support(grid_cols) < self.num_queries {
            Some(
                Error::InsufficientSupport {
                    ldt_support_size: self.support(grid_cols) as usize,
                    num_queries: self.num_queries,
                },
            )
        } else if self.estimated(field_bits, grid_cols) < self.min_security_bits {
            Some(
                Error::SecurityTooLow {
                    estimated_bits: self.estimated(field_bits, grid_cols),
                    min_bits: self.min_security_bits,
                },
            )
        } else {
            None
        }
    }

    /// Production parameters.
    pub fn prod() -> (r: Self)
        ensures
            r == (Config {
                inv_rate: 2,
                num_queries: 176,
                min_security_bits: MIN_PRODUCTION_BITS,
                sumcheck_blinding_factor: 2,
                ldt_support_size: 200,
                outer_queries: 155,
            }),
    {
        Config {
            inv_rate: 2,
            num_queries: 176,
            min_security_bits: MIN_PRODUCTION_BITS,
            sumcheck_blinding_factor: 2,
            ldt_support_size: 200,
            outer_queries: 155,
        }
    }

    /// Fast parameters of low soundness for tests and experiments: weak grids
    /// are accepted. Never deploy them.
    pub fn dev() -> (r: Self)
        ensures
            r == (Config {
                inv_rate: 2,
                num_queries: 4,
                min_security_bits: 0,
                sumcheck_blinding_factor: 2,
                ldt_support_size: 200,
                outer_queries: 155,
            }),
    {
        Config { num_queries: 4, min_security_bits: 0, ..Self::prod() }
    }

    /// Committed row-code width of a grid.
    pub fn encoded_width(&self, grid_cols: usize) -> (r: usize)
        requires
            self.fits(grid_cols as nat),
        ensures
            r == self.width(grid_cols as nat),
    {
        self.table_geom(grid_cols).encoded_width
    }

    /// Whether the geometry of a grid is within machine range.
    pub fn in_range(&self, grid_cols: usize) -> (r: bool)
        ensures
            r == self.fits(grid_cols as nat),
    {
        let width: usize = match grid_cols.checked_mul(self.inv_rate) {
            Some(w) => w,
            None => {
                return false;
            },
        };
        let msg: usize = match self.ldt_support_size.checked_add(grid_cols) {
            Some(m) => m,
            None => {
                return false;
            },
        };
        proof {
            if msg == 0 {
                assert(grid_cols * self.inv_rate == 0) by (nonlinear_arith)
                    requires
                        grid_cols == 0,
                ;
            }
        }
        if self.ldt_support_size <= grid_cols && self.ldt_bits(msg, width) >= MIN_PRODUCTION_BITS {
            return true;
        }
        grid_cols.checked_add(grid_cols).is_some() && width.checked_mul(2).is_some()
    }

    /// Chooses the geometry of a grid: the fractional support where it reaches
    /// the production floor, else a support as long as the grid and twice the
    /// width.
    pub fn table_geom(&self, grid_cols: usize) -> (r: TableGeom)
        requires
            self.fits(grid_cols as nat),
        ensures
            r.support_size == self.support(grid_cols as nat),
            r.encoded_width == self.width(grid_cols as nat),
    {
        let frac = TableGeom {
            support_size: self.ldt_support_size,
            encoded_width: grid_cols * self.inv_rate,
        };
        let frac_msg: usize = frac.support_size + grid_cols;
        proof {
            if frac_msg == 0 {
                assert(grid_cols * self.inv_rate == 0) by (nonlinear_arith)
                    requires
                        grid_cols == 0,
                ;
            }
        }
        if frac.support_size <= grid_cols && self.ldt_bits(frac_msg, frac.encoded_width)
            >= MIN_PRODUCTION_BITS {
            return frac;
        }
        TableGeom { support_size: grid_cols, encoded_width: grid_cols * self.inv_rate * 2 }
    }

    /// The bits of the low-degree test at a grid, capped at the field size.
    pub fn estimated_security_bits(&self, field_bits: usize, grid_cols: usize) -> (r: usize)
        requires
            self.fits(grid_cols as nat),
        ensures
            r == self.estimated(field_bits, grid_cols as nat),
    {
        let g = self.table_geom(grid_cols);
        proof {
            if grid_cols == 0 {
                assert(grid_cols * self.inv_rate == 0) by (nonlinear_arith)
                    requires
                        grid_cols == 0,
                ;
            }
        }
        let b: usize = self.ldt_bits(g.support_size + grid_cols, g.encoded_width);
        if b <= field_bits {
            b
        } else {
            field_bits
        }
    }

    /// Rejects a configuration that is malformed, masks too little, or whose
    /// estimated security at a grid falls below `min_security_bits`. Where
    /// that is zero, short masks are accepted.
    pub fn check_security(&self, field_bits: usize, grid_cols: usize) -> (r: Result<
        (),
        errors::Error,
    >)
        requires
            self.rate_ok() ==> self.fits(grid_cols as nat),
        ensures
            r is Ok <==> self.fault(field_bits, grid_cols as nat) is None,
            r matches Err(e) ==> self.fault(field_bits, grid_cols as nat) matches Some(f) && e
                == errors::Error::Config(f),
    {
        if self.inv_rate < 2 || trace::exact_log2(self.inv_rate).is_none() {
            return Err(errors::Error::Config(Error::InvalidInvRate { inv_rate: self.inv_rate }));
        }
        let support: usize = self.table_geom(grid_cols).support_size;
        if self.min_security_bits > 0 && support < self.num_queries {
            return Err(
                errors::Error::Config(
                    Error::InsufficientSupport {
                        ldt_support_size: support,
                        num_queries: self.num_queries,
                    },
                ),
            );
        }
        let est_bits: usize = self.estimated_security_bits(field_bits, grid_cols);
        if est_bits < self.min_security_bits {
            return Err(
                errors::Error::Config(
                    Error::SecurityTooLow {
                        estimated_bits: est_bits,
                        min_bits: self.min_security_bits,
                    },
                ),
            );
        }
        Ok(())
    }

    /// `floor(-log2((msg_len / code_width)^q))` in bits, in integers only, so
    /// that both sides of the protocol derive the same geometry.
    pub fn ldt_bits(&self, msg_len: usize, code_width: usize) -> (r: usize)
        requires
            msg_len == 0 ==> code_width == 0,
        ensures
            r == self.bits_at(msg_len as nat, code_width as nat),
    {
        if msg_len >= code_width {
            return 0;
        }
        let log2_ratio: u128 = log2_ratio_fixed(code_width as u128, msg_len as u128);
        proof {
            assert(self.num_queries * log2_ratio < 0x10000000000000000 * 0x4500000000)
                by (nonlinear_arith)
                requires
                    0 <= self.num_queries < 0x10000000000000000,
                    0 <= log2_ratio < 0x4500000000,
            ;
        }
        #[verifier::truncate]
        (((self.num_queries as u128) * log2_ratio / 0x100000000) as usize)
    }
}

impl Default for Config {
    fn default() -> (r: Self)
        ensures
            r == (Config {
                inv_rate: 2,
                num_queries: 176,
                min_security_bits: MIN_PRODUCTION_BITS,
                sumcheck_blinding_factor: 2,
                ldt_support_size: 200,
                outer_queries: 155,
            }),
    {
        Self::prod()
    }
}

} // verus!
