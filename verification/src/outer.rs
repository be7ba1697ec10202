//! Geometry and masking of the outer proof.

use vstd::arithmetic::power::*;
use vstd::arithmetic::power2::*;
use vstd::prelude::*;

use crate::bits;
use crate::bytes;
use crate::config;
use crate::config::{Config, Error, OUTER_RATE_LOG2, OUTER_ROWS};
use crate::errors;
use crate::field::laws::Ring;
use crate::field::{Block128, Flat};
use crate::hashers;
use crate::hashers::Hasher;
use crate::wipe;

verus! {

/// Mask rows of the outer code: one for the interleaved test, then a low and
/// high pair for each product-code test.
pub const OUTER_MASK_ROWS: usize = 5;

/// Wires `x`, `y`, `z` of one Hadamard row.
pub const OUTER_WIRES_PER_MUL: usize = 3;

/// The largest domain of the outer code, as an exponent: domains are
/// subspaces over GF(2).
pub const MAX_OUTER_DOMAIN_LOG2: u32 = 24;

/// Geometry of the outer code. Both sides derive it from the size of the
/// statement alone, and never read it from the proof.
#[derive(Clone, Copy, Debug, PartialEq, Eq, Structural)]
pub struct OuterGeometry {
    pub message_len: usize,
    /// The surplus over `message_len` is uniform, so that the opened columns
    /// of a row are independent of its message.
    pub code_len: usize,
    pub domain_len: usize,
    pub queries: usize,
}

impl OuterGeometry {
    /// Random symbols of a row.
    pub fn zk_padding(&self) -> (r: usize)
        requires
            self.message_len <= self.code_len,
        ensures
            r == self.code_len - self.message_len,
    {
        self.code_len - self.message_len
    }
}

// ---------------------------------------------------------------
// The one-time pad
// ---------------------------------------------------------------

/// The string that entry `i` of the pad of a seed is hashed from: the seed,
/// then the counter.
pub open spec fn pad_string(seed: Seq<u8>, i: nat) -> Seq<u8> {
    seed + bytes::le_bytes(i, 8)
}

/// Entry `i` of the pad of a seed: the first sixteen bytes of the hash of the
/// seed and the counter.
pub open spec fn pad_entry<H: Hasher>(seed: Seq<u8>, i: nat) -> nat {
    bytes::le_value(hashers::digest::<H>(seed + bytes::le_bytes(i, 8)).take(16))
}

/// A one-time pad: entries, and how many of them were used.
pub struct Pad {
    values: Vec<Flat<Block128>>,
    next: usize,
}

impl Pad {
    /// The entries.
    pub closed spec fn entries(self) -> Seq<Flat<Block128>> {
        self.values@
    }

    /// How many entries were used.
    pub closed spec fn used(self) -> nat {
        self.next as nat
    }

    /// No more entries were used than there are.
    pub closed spec fn wf(self) -> bool {
        self.next <= self.values@.len()
    }

    /// `after` is `before` with one more entry used, and `r` that entry; where
    /// none was left, nothing happened.
    pub open spec fn takes(before: Pad, after: Pad, r: Option<Flat<Block128>>) -> bool {
        &&& after.entries() == before.entries()
        &&& if before.used() < before.entries().len() {
            r == Some(before.entries()[before.used() as int]) && after.used() == before.used() + 1
        } else {
            r is None && after.used() == before.used()
        }
    }

    /// Derives entries from a seed in counter mode.
    pub fn derive<H: Hasher>(seed: &[u8; 32], len: usize) -> (r: Self)
        ensures
            r.wf(),
            r.used() == 0,
            r.entries().len() == len,
            forall|i: int|
                0 <= i < len ==> (#[trigger] r.entries()[i]).0.0 == pad_entry::<H>(seed@, i as nat),
            forall|i: int|
                0 <= i < len ==> (#[trigger] r.entries()[i]).0.0 == bytes::le_value(
                    hashers::digest::<H>(pad_string(seed@, i as nat)).take(16),
                ),
    {
        let mut values: Vec<Flat<Block128>> = Vec::new();
        let mut i: usize = 0;
        while i < len
            invariant
                i <= len,
                values@.len() == i,
                forall|k: int|
                    0 <= k < i ==> (#[trigger] values@[k]).0.0 == pad_entry::<H>(seed@, k as nat),
            decreases len - i,
        {
            let mut hasher = H::new();
            hasher.update(seed);
            let counter: Vec<u8> = bytes::to_le(i as u128, 8);
            hasher.update(counter.as_slice());
            proof {
                assert(hasher.absorbed() =~= seed@ + bytes::le_bytes(i as nat, 8));
            }
            let hash: [u8; 32] = hasher.finalize();
            let head: &[u8] = vstd::slice::slice_subrange(hash.as_slice(), 0, 16);
            proof {
                assert(head@ =~= hash@.take(16));
            }
            values.push(Flat::from_raw(Block128(bytes::read_le(head))));
            i = i + 1;
        }
        Pad { values, next: 0 }
    }

    /// Overwrites the entries with zero and drops them. How many were used
    /// stays.
    pub fn zeroize(&mut self)
        ensures
            final(self).used() == old(self).used(),
            final(self).entries().len() == 0,
            final(self).wf() == (old(self).used() == 0),
    {
        wipe::wipe128(&mut self.values);
    }

    pub fn values(&self) -> (r: &[Flat<Block128>])
        ensures
            r@ == self.entries(),
    {
        self.values.as_slice()
    }

    pub fn get(&self, index: usize) -> (r: Option<Flat<Block128>>)
        ensures
            r == (if index < self.entries().len() {
                Some(self.entries()[index as int])
            } else {
                None
            }),
    {
        if index < self.values.len() {
            Some(self.values[index])
        } else {
            None
        }
    }

    pub fn len(&self) -> (r: usize)
        ensures
            r == self.entries().len(),
    {
        self.values.len()
    }

    pub fn is_empty(&self) -> (r: bool)
        ensures
            r == (self.entries().len() == 0),
    {
        self.values.len() == 0
    }

    /// Uses the next entry, where there is one.
    pub fn take(&mut self) -> (r: Option<Flat<Block128>>)
        ensures
            old(self).wf() ==> final(self).wf(),
            final(self).entries() == old(self).entries(),
            if old(self).used() < old(self).entries().len() {
                r == Some(old(self).entries()[old(self).used() as int]) && final(self).used()
                    == old(self).used() + 1
            } else {
                r is None && final(self).used() == old(self).used()
            },
            Pad::takes(*old(self), *final(self), r),
    {
        if self.next < self.values.len() {
            let entry = self.values[self.next];
            self.next = self.next + 1;
            Some(entry)
        } else {
            None
        }
    }

    pub fn consumed(&self) -> (r: usize)
        ensures
            r == self.used(),
    {
        self.next
    }
}

/// Values sent in the clear, or under a pad.
pub enum Masking<'a> {
    Off,
    On(&'a mut Pad),
}

impl<'a> Masking<'a> {
    /// The pad is well-formed.
    pub open spec fn wf(self) -> bool {
        match self {
            Masking::Off => true,
            Masking::On(pad) => pad.wf(),
        }
    }

    /// Masks a value: adds the next entry of the pad.
    pub fn mask(&mut self, value: Flat<Block128>) -> (r: Result<Flat<Block128>, errors::Error>)
        ensures
            old(self).wf() ==> final(self).wf(),
            match *old(self) {
                Masking::Off => r == Ok::<Flat<Block128>, errors::Error>(value)
                    && *final(self) is Off,
                Masking::On(before) => {
                    &&& *final(self) matches Masking::On(after)
                    &&& after.entries() == before.entries()
                    &&& if before.used() < before.entries().len() {
                        &&& after.used() == before.used() + 1
                        &&& r matches Ok(masked)
                        &&& masked@ == value@ ^ before.entries()[before.used() as int]@
                    } else {
                        &&& after.used() == before.used()
                        &&& r matches Err(e)
                        &&& e.is_protocol("outer"@, "one-time pad exhausted"@)
                    }
                },
            },
    {
        match self {
            Masking::Off => Ok(value),
            Masking::On(pad) => match pad.take() {
                None => Err(
                    errors::Error::Protocol {
                        protocol: "outer",
                        message: "one-time pad exhausted",
                    },
                ),
                Some(entry) => Ok(value.plus(entry)),
            },
        }
    }

    pub fn is_on(&self) -> (r: bool)
        ensures
            r == (self is On),
    {
        match self {
            Masking::Off => false,
            Masking::On(_) => true,
        }
    }

    /// How many entries of the pad were used.
    pub fn consumed(&self) -> (r: usize)
        ensures
            r == (match self {
                Masking::Off => 0nat,
                Masking::On(pad) => pad.used(),
            }),
    {
        match self {
            Masking::Off => 0,
            Masking::On(pad) => pad.consumed(),
        }
    }

    /// An entry of the pad.
    pub fn entry(&self, index: usize) -> (r: Option<Flat<Block128>>)
        ensures
            r == (match self {
                Masking::Off => None,
                Masking::On(pad) => if index < pad.entries().len() {
                    Some(pad.entries()[index as int])
                } else {
                    None
                },
            }),
    {
        match self {
            Masking::Off => None,
            Masking::On(pad) => pad.get(index),
        }
    }
}

/// Every entry has a string of its own: entry `i` is the number that the first
/// sixteen bytes of the hash of a string write, the string is the seed and
/// eight bytes that write `i`, and two equal strings have the same seed and
/// the same index.
pub proof fn law_entries_have_their_own_strings<H: Hasher>(
    seed: Seq<u8>,
    i: u64,
    other: Seq<u8>,
    j: u64,
)
    requires
        seed.len() == 32,
        other.len() == 32,
    ensures
        pad_entry::<H>(seed, i as nat) == bytes::le_value(
            hashers::digest::<H>(pad_string(seed, i as nat)).subrange(0, 16),
        ),
        pad_string(seed, i as nat).len() == 40,
        pad_string(seed, i as nat).subrange(0, 32) == seed,
        bytes::le_value(pad_string(seed, i as nat).subrange(32, 40)) == i,
        pad_string(seed, i as nat) == pad_string(other, j as nat) ==> seed == other && i == j,
{
    bytes::lemma_byte_pow_values();
    bytes::lemma_le_bytes_len(i as nat, 8);
    bytes::lemma_le_bytes_len(j as nat, 8);
    bytes::law_le_round_trip(i as nat, 8);
    bytes::law_le_round_trip(j as nat, 8);
    let (x, y) = (pad_string(seed, i as nat), pad_string(other, j as nat));
    assert(x.subrange(0, 32) =~= seed && y.subrange(0, 32) =~= other);
    assert(x.subrange(32, 40) =~= bytes::le_bytes(i as nat, 8));
    assert(y.subrange(32, 40) =~= bytes::le_bytes(j as nat, 8));
    assert(x =~= seed + bytes::le_bytes(i as nat, 8));
}

/// No entry is used twice: of two values taken one after the other the first is
/// the entry next in line and the second the entry behind it, and once nothing
/// is left nothing is given again.
pub proof fn law_entries_are_used_once(
    a: Pad,
    b: Pad,
    c: Pad,
    r: Option<Flat<Block128>>,
    s: Option<Flat<Block128>>,
)
    requires
        Pad::takes(a, b, r),
        Pad::takes(b, c, s),
    ensures
        r matches Some(x) ==> a.used() < a.entries().len() && x == a.entries()[a.used() as int],
        s matches Some(x) ==> r is Some && a.used() + 1 < a.entries().len() && x == a.entries()[(
        a.used() + 1) as int],
        r is None ==> s is None,
        a.used() + 2 <= a.entries().len() ==> r is Some && s is Some && c.used() == a.used() + 2,
        c.entries() == a.entries(),
{
}

/// Adding the entry that masked a value gives the value back.
pub proof fn law_masks_come_off(value: u128, entry: u128)
    ensures
        (value ^ entry) ^ entry == value,
{
    <u128 as Ring>::sums(value, entry, entry, 0, 0, 0, 0, 0);
    <u128 as Ring>::sums(entry, 0, 0, 0, 0, 0, 0, 0);
}

// ---------------------------------------------------------------
// Geometry
// ---------------------------------------------------------------

/// Columns that `mul_wires` products take: at least one.
pub open spec fn seed_len(mul_wires: nat) -> nat {
    let n = (3 * mul_wires + 31) / 32;
    if n == 0 {
        1
    } else {
        n
    }
}

/// Columns that must fit the code: data, one per query, and one more.
pub open spec fn seed_code(mul_wires: nat, queries: nat) -> nat {
    seed_len(mul_wires) + queries + 1
}

/// The exponent of the smallest domain that holds the statement at the outer
/// rate.
pub open spec fn domain_log2(mul_wires: nat, queries: nat) -> nat {
    bits::ceil_log2(seed_code(mul_wires, queries) * 16)
}

/// The statement's sizes are within machine range.
pub open spec fn statement_fits(mul_wires: nat, queries: nat) -> bool {
    &&& 3 * mul_wires <= usize::MAX
    &&& seed_code(mul_wires, queries) <= usize::MAX
    &&& seed_code(mul_wires, queries) * 16 <= usize::MAX / 2 + 1 || seed_code(mul_wires, queries)
        * 16 > usize::MAX
}

/// The geometry of a statement.
pub open spec fn geometry(mul_wires: nat, queries: usize) -> OuterGeometry {
    let d = domain_log2(mul_wires, queries as nat);
    OuterGeometry {
        message_len: (pow2((d - 4) as nat) - queries - 1) as usize,
        code_len: pow2((d - 4) as nat) as usize,
        domain_len: pow2(d) as usize,
        queries,
    }
}

/// `queries · log2(2n / (n + 2k))`, rounded down.
pub open spec fn query_bits(geom: OuterGeometry) -> nat {
    geom.queries as nat * config::log2_fixed(
        2 * geom.domain_len as nat,
        geom.domain_len as nat + 2 * geom.code_len as nat,
    ) / 0x100000000
}

/// The smaller of two numbers.
pub open spec fn least(a: usize, b: usize) -> usize {
    if a <= b {
        a
    } else {
        b
    }
}

/// The field's bits less those of the domain.
pub open spec fn field_term(field_bits: usize, geom: OuterGeometry) -> nat {
    let d = bits::ceil_log2(geom.domain_len as nat);
    if field_bits >= d {
        (field_bits - d) as nat
    } else {
        0
    }
}

impl Config {
    /// The bits estimated for an outer geometry.
    pub open spec fn outer_estimate(self, field_bits: usize, geom: OuterGeometry) -> usize {
        least(
            least(query_bits(geom) as usize, field_bits),
            field_term(field_bits, geom) as usize,
        )
    }

    /// What is wrong with an outer geometry.
    pub open spec fn outer_fault(self, field_bits: usize, geom: OuterGeometry) -> Option<Error> {
        if self.min_security_bits == 0 || self.outer_estimate(field_bits, geom)
            >= self.min_security_bits {
            None
        } else {
            Some(
                Error::SecurityTooLow {
                    estimated_bits: self.outer_estimate(field_bits, geom),
                    min_bits: self.min_security_bits,
                },
            )
        }
    }

    /// What is wrong with an outer statement.
    pub open spec fn statement_fault(
        self,
        masked_scalars: nat,
        mul_wires: nat,
        field_bits: usize,
    ) -> Option<Error> {
        let code = seed_code(mul_wires, self.outer_queries as nat);
        if masked_scalars == 0 {
            Some(Error::EmptyOuterStatement)
        } else if self.outer_queries == 0 {
            Some(Error::ZeroOuterQueries)
        } else if code * 16 > usize::MAX || domain_log2(mul_wires, self.outer_queries as nat)
            > MAX_OUTER_DOMAIN_LOG2 {
            Some(
                Error::OuterDomainTooLarge {
                    code_len: code as usize,
                    max_log2: MAX_OUTER_DOMAIN_LOG2,
                },
            )
        } else {
            self.outer_fault(field_bits, geometry(mul_wires, self.outer_queries))
        }
    }

    /// Derives the geometry of a statement and checks its security.
    pub fn outer_geom(&self, masked_scalars: usize, mul_wires: usize, field_bits: usize) -> (r:
        Result<OuterGeometry, errors::Error>)
        requires
            masked_scalars > 0 && self.outer_queries > 0 ==> statement_fits(
                mul_wires as nat,
                self.outer_queries as nat,
            ),
        ensures
            match r {
                Ok(g) => self.statement_fault(masked_scalars as nat, mul_wires as nat, field_bits)
                    is None && g == geometry(mul_wires as nat, self.outer_queries),
                Err(e) => self.statement_fault(
                    masked_scalars as nat,
                    mul_wires as nat,
                    field_bits,
                ) matches Some(f) && e == errors::Error::Config(f),
            },
    {
        if masked_scalars == 0 {
            return Err(errors::Error::Config(Error::EmptyOuterStatement));
        }
        if self.outer_queries == 0 {
            return Err(errors::Error::Config(Error::ZeroOuterQueries));
        }
        let aux_len: usize = OUTER_WIRES_PER_MUL * mul_wires;
        let rows: usize = if aux_len % OUTER_ROWS == 0 {
            aux_len / OUTER_ROWS
        } else {
            aux_len / OUTER_ROWS + 1
        };
        let seed: usize = if rows == 0 {
            1
        } else {
            rows
        };
        let code: usize = seed + self.outer_queries + 1;
        let too_large = Error::OuterDomainTooLarge {
            code_len: code,
            max_log2: MAX_OUTER_DOMAIN_LOG2,
        };
        if code > usize::MAX / 16 {
            return Err(errors::Error::Config(too_large));
        }
        let log_n: u32 = ceil_log2(code * 16);
        if log_n > MAX_OUTER_DOMAIN_LOG2 {
            return Err(errors::Error::Config(too_large));
        }
        proof {
            let n = code as nat * 16;
            bits::lemma_ceil_log2(n);
            lemma2_to64();
            lemma2_to64_rest();
            bits::lemma_pow2_monotone(log_n as nat, 24);
            bits::lemma_pow2_monotone(log_n as nat, 4);
            lemma_pow2_adds((log_n - 4) as nat, 4);
            lemma_geometry(mul_wires as nat, self.outer_queries);
        }
        let domain_len: usize = power_of_two(log_n);
        let code_len: usize = power_of_two(log_n - OUTER_RATE_LOG2);
        let geom = OuterGeometry {
            message_len: code_len - self.outer_queries - 1,
            code_len,
            domain_len,
            queries: self.outer_queries,
        };
        match self.check_outer_security(field_bits, &geom) {
            Ok(()) => Ok(geom),
            Err(e) => Err(e),
        }
    }

    /// The query term of the outer soundness, in bits, capped at the field
    /// size.
    pub fn outer_security_bits(&self, field_bits: usize, geom: &OuterGeometry) -> (r: usize)
        requires
            geom.domain_len > 0 || geom.code_len > 0,
        ensures
            r == least(query_bits(*geom) as usize, field_bits),
    {
        let n: u128 = geom.domain_len as u128;
        let k: u128 = geom.code_len as u128;
        let per_query: u128 = config::log2_ratio_fixed(2 * n, n + 2 * k);
        proof {
            assert(geom.queries * per_query < 0x10000000000000000 * 0x4500000000)
                by (nonlinear_arith)
                requires
                    0 <= geom.queries < 0x10000000000000000,
                    0 <= per_query < 0x4500000000,
            ;
        }
        #[verifier::truncate]
        let bits: usize = (((geom.queries as u128) * per_query / 0x100000000) as usize);
        if bits <= field_bits {
            bits
        } else {
            field_bits
        }
    }

    /// The additive term `domain_len / |F|` of the outer soundness, in bits.
    pub fn outer_field_term_bits(&self, field_bits: usize, geom: &OuterGeometry) -> (r: usize)
        requires
            geom.domain_len <= usize::MAX / 2 + 1,
        ensures
            r == field_term(field_bits, *geom),
    {
        let d: usize = ceil_log2(geom.domain_len) as usize;
        field_bits.saturating_sub(d)
    }

    /// Rejects a geometry whose estimated security falls below
    /// `min_security_bits`; where that is zero, accepts every geometry.
    pub fn check_outer_security(&self, field_bits: usize, geom: &OuterGeometry) -> (r: Result<
        (),
        errors::Error,
    >)
        requires
            self.min_security_bits > 0 ==> geom.domain_len > 0 || geom.code_len > 0,
            self.min_security_bits > 0 ==> geom.domain_len <= usize::MAX / 2 + 1,
        ensures
            r is Ok <==> self.outer_fault(field_bits, *geom) is None,
            r matches Err(e) ==> self.outer_fault(field_bits, *geom) matches Some(f) && e
                == errors::Error::Config(f),
    {
        if self.min_security_bits == 0 {
            return Ok(());
        }
        let q: usize = self.outer_security_bits(field_bits, geom);
        let f: usize = self.outer_field_term_bits(field_bits, geom);
        let estimated_bits: usize = if q <= f {
            q
        } else {
            f
        };
        if estimated_bits < self.min_security_bits {
            return Err(
                errors::Error::Config(
                    Error::SecurityTooLow { estimated_bits, min_bits: self.min_security_bits },
                ),
            );
        }
        Ok(())
    }
}

/// The logarithm of a number, rounded up.
fn ceil_log2(n: usize) -> (r: u32)
    ensures
        r == bits::ceil_log2(n as nat),
        r <= usize::BITS,
{
    if n <= 1 {
        return 0;
    }
    let k: u32 = bits::ilog2((n - 1) as u128);
    proof {
        bits::lemma_floor_log2((n - 1) as nat);
        bits::lemma_pow2_monotone(usize::BITS as nat, k as nat);
        lemma2_to64();
        lemma2_to64_rest();
    }
    k + 1
}

/// `2^k`.
fn power_of_two(k: u32) -> (r: usize)
    requires
        k <= 24,
    ensures
        r as nat == pow2(k as nat),
{
    proof {
        lemma2_to64();
        lemma2_to64_rest();
        bits::lemma_pow2_monotone(k as nat, 24);
        vstd::bits::lemma_usize_shl_is_mul(1, k as usize);
    }
    1usize << k
}

proof fn lemma_geometry(mul_wires: nat, queries: usize)
    requires
        seed_code(mul_wires, queries as nat) * 16 <= usize::MAX,
        domain_log2(mul_wires, queries as nat) <= 24,
    ensures
        ({
            let d = domain_log2(mul_wires, queries as nat);
            &&& d >= 5
            &&& pow2(d) == 16 * pow2((d - 4) as nat)
            &&& pow2((d - 4) as nat) >= seed_code(mul_wires, queries as nat)
            &&& pow2((d - 5) as nat) < seed_code(mul_wires, queries as nat)
            &&& pow2(d) <= 0x1000000
        }),
{
    let code = seed_code(mul_wires, queries as nat);
    let d = domain_log2(mul_wires, queries as nat);
    bits::lemma_ceil_log2(code * 16);
    lemma2_to64();
    lemma2_to64_rest();
    bits::lemma_pow2_monotone(d, 24);
    bits::lemma_pow2_monotone(d, 4);
    lemma_pow2_adds((d - 4) as nat, 4);
    lemma_pow2_adds((d - 5) as nat, 4);
}

/// What every derived geometry satisfies: the random symbols of a row outnumber
/// the opened columns; the domain is a power of two, sixteen times the code;
/// the message holds the wires of every product; and no smaller domain does.
pub proof fn law_geometry(cfg: Config, masked_scalars: nat, mul_wires: nat, field_bits: usize)
    requires
        statement_fits(mul_wires, cfg.outer_queries as nat),
        cfg.statement_fault(masked_scalars, mul_wires, field_bits) is None,
    ensures
        ({
            let g = geometry(mul_wires, cfg.outer_queries);
            &&& g.queries < g.code_len - g.message_len
            &&& g.code_len - g.message_len == g.queries + 1
            &&& g.domain_len == 16 * g.code_len
            &&& exists|k: nat|
                1 <= k && k + 4 <= 24 && g.code_len as nat == #[trigger] pow2(k) && g.domain_len as nat
                    == pow2(k + 4)
            &&& 1 <= g.message_len
            &&& 3 * mul_wires <= 32 * g.message_len
            &&& g.code_len < 2 * seed_code(mul_wires, cfg.outer_queries as nat)
        }),
{
    let d = domain_log2(mul_wires, cfg.outer_queries as nat);
    let g = geometry(mul_wires, cfg.outer_queries);
    lemma_geometry(mul_wires, cfg.outer_queries);
    lemma_pow2_unfold((d - 4) as nat);
    let k = (d - 4) as nat;
    assert(g.code_len as nat == pow2(k) && g.domain_len as nat == pow2(k + 4));
    lemma2_to64();
    if k == 0 {
        assert(g.code_len == 1);
    }
}

/// The domain is the least: a code of half the length would leave, beside one
/// symbol for every opened column and one more, no symbol at all, or too few
/// for three wires of every product, 32 to a symbol.
pub proof fn law_geometry_is_least(
    cfg: Config,
    masked_scalars: nat,
    mul_wires: nat,
    field_bits: usize,
)
    requires
        statement_fits(mul_wires, cfg.outer_queries as nat),
        cfg.statement_fault(masked_scalars, mul_wires, field_bits) is None,
    ensures
        ({
            let g = geometry(mul_wires, cfg.outer_queries);
            let left = g.code_len / 2 - cfg.outer_queries - 1;
            left < 1 || 32 * left < 3 * mul_wires
        }),
{
    law_geometry(cfg, masked_scalars, mul_wires, field_bits);
}

/// A statement is called too large where no code of 2^20 symbols or fewer has
/// room for it, one sixteenth of the largest domain of 2^24.
pub proof fn law_too_large(cfg: Config, masked_scalars: nat, mul_wires: nat, field_bits: usize)
    requires
        statement_fits(mul_wires, cfg.outer_queries as nat),
        cfg.statement_fault(masked_scalars, mul_wires, field_bits) matches Some(
            Error::OuterDomainTooLarge { .. },
        ),
    ensures
        masked_scalars > 0,
        cfg.outer_queries > 0,
        forall|m: nat|
            m >= 1 && 3 * mul_wires <= 32 * m ==> #[trigger] (m + cfg.outer_queries) + 1 > 0x100000,
{
    let code = seed_code(mul_wires, cfg.outer_queries as nat);
    let d = domain_log2(mul_wires, cfg.outer_queries as nat);
    lemma2_to64();
    lemma2_to64_rest();
    if code * 16 <= usize::MAX {
        assert(d > 24);
        bits::lemma_ceil_log2(code * 16);
        bits::lemma_pow2_monotone(24, (d - 1) as nat);
    }
    assert(code * 16 > 0x1000000);
}

/// A geometry that is accepted is secure. The chance that all queries miss,
/// `((n + 2k) / 2n)` to their number, is at most one in two to the bits asked
/// for, and so is the domain's share of the field.
pub proof fn law_outer_accepted_is_secure(cfg: Config, field_bits: usize, geom: OuterGeometry)
    requires
        cfg.min_security_bits > 0,
        cfg.outer_fault(field_bits, geom) is None,
        0 < geom.code_len,
        2 * geom.code_len < geom.domain_len,
        query_bits(geom) <= usize::MAX,
    ensures
        pow((geom.domain_len + 2 * geom.code_len) as int, geom.queries as nat) * pow2(
            cfg.min_security_bits as nat,
        ) <= pow(2 * geom.domain_len as int, geom.queries as nat),
        cfg.min_security_bits <= field_bits,
        geom.domain_len as nat * pow2(cfg.min_security_bits as nat) <= pow2(field_bits as nat),
{
    let q = geom.queries as nat;
    let (msg, code) = (
        (geom.domain_len + 2 * geom.code_len) as nat,
        2 * geom.domain_len as nat,
    );
    let b = query_bits(geom);
    assert(b == config::proximity_bits(q, msg, code));
    config::laws::law_proximity_bits(q, msg, code);
    let m = cfg.min_security_bits as nat;
    bits::lemma_pow2_monotone(m, b);
    lemma_pow_positive(msg as int, q);
    let p = pow(msg as int, q);
    assert(p * pow2(m) <= p * pow2(b)) by (nonlinear_arith)
        requires
            p >= 0,
            pow2(m) <= pow2(b),
    ;
    let d = bits::ceil_log2(geom.domain_len as nat);
    bits::lemma_ceil_log2(geom.domain_len as nat);
    assert(d + m <= field_bits);
    lemma_pow2_adds(d, m);
    bits::lemma_pow2_monotone(d + m, field_bits as nat);
    let n = geom.domain_len as nat;
    assert(n * pow2(m) <= pow2(d) * pow2(m)) by (nonlinear_arith)
        requires
            n <= pow2(d),
    ;
}

/// A geometry that is rejected does fall short of the bits asked for: by its
/// queries, by the size of the field, or by the domain's share of it.
pub proof fn law_outer_rejected_is_insecure(cfg: Config, field_bits: usize, geom: OuterGeometry)
    requires
        cfg.outer_fault(field_bits, geom) is Some,
        0 < geom.code_len,
        2 * geom.code_len < geom.domain_len,
        query_bits(geom) <= usize::MAX,
        2 * geom.queries <= 0x100000000,
    ensures
        ({
            let (q, m) = (geom.queries as nat, cfg.min_security_bits as nat);
            ||| pow(2 * geom.domain_len as int, q) < pow(
                (geom.domain_len + 2 * geom.code_len) as int,
                q,
            ) * pow2(m + 1)
            ||| field_bits < m
            ||| 2 * geom.domain_len as nat * pow2(m) > pow2(field_bits as nat)
        }),
{
    let q = geom.queries as nat;
    let (msg, code) = (
        (geom.domain_len + 2 * geom.code_len) as nat,
        2 * geom.domain_len as nat,
    );
    let b = query_bits(geom);
    let m = cfg.min_security_bits as nat;
    assert(b == config::proximity_bits(q, msg, code));
    config::laws::law_proximity_bits(q, msg, code);
    lemma_pow_positive(msg as int, q);
    let p = pow(msg as int, q);
    if b < m {
        bits::lemma_pow2_monotone(b + 2, m + 1);
        assert(p * pow2(b + 2) <= p * pow2(m + 1)) by (nonlinear_arith)
            requires
                p >= 0,
                pow2(b + 2) <= pow2(m + 1),
        ;
    } else if field_bits >= m {
        let n = geom.domain_len as nat;
        let d = bits::ceil_log2(n);
        bits::lemma_ceil_log2(n);
        assert(d > 0);
        assert(field_bits < d + m);
        bits::lemma_pow2_monotone(field_bits as nat, (d - 1 + m) as nat);
        lemma_pow2_adds((d - 1) as nat, m);
        lemma_pow2_pos(m);
        let h = pow2((d - 1) as nat);
        assert(h * pow2(m) < n * pow2(m) && n * pow2(m) <= 2 * n * pow2(m)) by (nonlinear_arith)
            requires
                h < n,
                pow2(m) > 0,
        ;
    }
}

} // verus!
