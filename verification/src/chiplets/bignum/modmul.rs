//! One modular product with the carries its proof needs.

use vstd::arithmetic::div_mod::*;
use vstd::arithmetic::mul::*;
use vstd::arithmetic::power2::*;
use vstd::prelude::*;

use super::bigint::{self, column_sums, divrem, normalise, sub_one_minus};
use super::limbs;
use crate::errors::Error;

verus! {

pub const LIMBS32: usize = 64;

pub const COLUMNS: usize = 128;

/// One modmul `x · y = q · N + r` with the bookkeeping the AIR
/// mirrors: normalised digits and per-side carries.
pub struct Modmul {
    pub x: [u32; LIMBS32],
    pub y: [u32; LIMBS32],
    pub q: [u32; LIMBS32],
    pub r: [u32; LIMBS32],
    pub w: [u32; LIMBS32],
    pub digits: [u32; COLUMNS],
    pub carries: [[u128; 129]; 2],
}

// ---------------------------------------------------------------
// Bounds
// ---------------------------------------------------------------

proof fn lemma_column_sum_bound(a: Seq<u32>, b: Seq<u32>, m: nat, k: int)
    ensures
        bigint::column_sum(a, b, m, k) <= m * (0xffff_ffff_ffff_ffff * 0xffff_ffff),
    decreases m,
{
    if m > 0 {
        lemma_column_sum_bound(a, b, (m - 1) as nat, k);
        let i = m - 1;
        let j = k - 2 * i;
        if 0 <= j < b.len() {
            let (p, v) = (bigint::pair(a, i), b[j] as nat);
            assert(p * v <= 0xffff_ffff_ffff_ffff * 0xffff_ffff) by (nonlinear_arith)
                requires
                    p <= 0xffff_ffff_ffff_ffff,
                    v <= 0xffff_ffff,
            ;
        }
        assert(m * (0xffff_ffff_ffff_ffff * 0xffff_ffff) == (m - 1) * (0xffff_ffff_ffff_ffff
            * 0xffff_ffff) + 0xffff_ffff_ffff_ffff * 0xffff_ffff) by (nonlinear_arith);
    }
}

proof fn lemma_bound_powers()
    ensures
        pow2(70) == 0x40_0000_0000_0000_0000,
        pow2(101) == 0x20_0000_0000_0000_0000_0000_0000,
{
    lemma_pow2_adds(64, 6);
    lemma_pow2_adds(64, 32);
    lemma_pow2_adds(96, 5);
    lemma2_to64();
}

/// Column sums of two [`LIMBS32`]-limb numbers stay below `2^101`.
pub proof fn law_column_sums_below_2_101(a: Seq<u32>, b: Seq<u32>, k: int)
    requires
        a.len() == LIMBS32,
    ensures
        bigint::column_sum(a, b, (a.len() / 2) as nat, k) < pow2(101),
{
    lemma_column_sum_bound(a, b, 32, k);
    lemma_bound_powers();
}

/// Where every column is below `2^101`, every carry stays below `2^70`.
pub proof fn law_carries_below_2_70(sums: Seq<u128>, add: Seq<u32>, k: nat)
    requires
        k <= sums.len(),
        forall|c: int| 0 <= c < sums.len() ==> (#[trigger] sums[c]) < pow2(101),
    ensures
        bigint::carry_into(sums, add, k) < pow2(70),
        k < sums.len() ==> bigint::column_total(sums, add, k) <= u128::MAX,
    decreases k,
{
    lemma_bound_powers();
    if k < sums.len() {
        assert(sums[k as int] < pow2(101));
    }
    if k > 0 {
        law_carries_below_2_70(sums, add, (k - 1) as nat);
        assert(sums[k - 1] < pow2(101));
        let total = bigint::column_total(sums, add, (k - 1) as nat);
        assert(total / 0x1_0000_0000 < 0x40_0000_0000_0000_0000);
    }
}

// ---------------------------------------------------------------
// The product
// ---------------------------------------------------------------

impl Modmul {
    /// The bookkeeping of `x · y` reduced modulo the number `n` writes.
    #[verifier::opaque]
    pub open spec fn wf(self, n: Seq<u32>) -> bool {
        let (x, y, q, r, w, m) = (
            limbs::limbs_value(self.x@),
            limbs::limbs_value(self.y@),
            limbs::limbs_value(self.q@),
            limbs::limbs_value(self.r@),
            limbs::limbs_value(self.w@),
            limbs::limbs_value(n),
        );
        &&& x * y == q * m + r
        &&& r < m
        &&& r + w + 1 == m
        &&& limbs::limbs_value(self.digits@) == x * y
        &&& carries_of(self.carries@[0]@, self.x@, self.y@, Seq::empty())
        &&& carries_of(self.carries@[1]@, self.q@, n, self.r@)
        &&& digits_of(self.digits@, self.x@, self.y@, Seq::empty())
        &&& digits_of(self.digits@, self.q@, n, self.r@)
    }

    /// Reduces `x · y` modulo `n`.
    ///
    /// # Errors
    /// The quotient does not fit [`LIMBS32`] limbs, or `n` is zero.
    pub fn compute(
        x: [u32; LIMBS32],
        y: [u32; LIMBS32],
        n: &[u32; LIMBS32],
    ) -> (res: Result<Modmul, Error>)
        ensures
            res is Ok <==> (limbs::limbs_value(n@) > 0 && limbs::limbs_value(x@)
                * limbs::limbs_value(y@) / limbs::limbs_value(n@) < limbs::radix_pow(64)),
            res matches Ok(m) ==> m.x == x && m.y == y && m.wf(n@),
            res matches Err(e) ==> e.is_protocol(
                "bignum"@,
                "quotient exceeds the modulus width: operand not reduced"@,
            ),
    {
        let ghost product = limbs::limbs_value(x@) * limbs::limbs_value(y@);
        let mut sums: [u128; COLUMNS] = [0u128; COLUMNS];
        let mut digits: [u32; COLUMNS] = [0u32; COLUMNS];
        let mut carries_a: [u128; 129] = [0u128; 129];

        proof {
            assert forall|k: int| 0 <= k < 128 implies #[trigger] bigint::column_sum(
                x@,
                y@,
                32,
                k,
            ) <= u128::MAX by {
                lemma_column_sum_bound(x@, y@, 32, k);
            }
        }
        column_sums(&x, &y, &mut sums);
        let ghost sums_a = sums@;
        proof {
            lemma_columns_of_product(x@, y@, sums_a);
            lemma_totals_fit(x@, y@, sums_a, Seq::empty());
        }
        let none: [u32; 0] = [];
        assert(none@ =~= Seq::<u32>::empty());
        normalise(&sums, &none, &mut digits, &mut carries_a);
        proof {
            lemma_digits_write(x@, y@, sums_a, Seq::empty(), digits@, product);
            assert(carries_of(carries_a@, x@, y@, Seq::empty())) by {
                lemma_carries_of(x@, y@, sums_a, Seq::empty(), carries_a@);
            }
            assert(digits_of(digits@, x@, y@, Seq::empty()));
        }

        let mut q: [u32; LIMBS32] = [0u32; LIMBS32];
        let mut acc: [u32; 65] = [0u32; 65];

        divrem(&digits, n, &mut q, &mut acc)?;

        let mut r: [u32; LIMBS32] = [0u32; LIMBS32];
        for k in 0..LIMBS32
            invariant
                forall|c: int| 0 <= c < k ==> r@[c] == acc@[c],
        {
            r[k] = acc[k];
        }
        proof {
            lemma_top_limb_zero(acc@, n@, product);
            assert(r@ =~= acc@.take(64));
        }

        let mut w: [u32; LIMBS32] = [0u32; LIMBS32];
        sub_one_minus(n, &r, &mut w);
        proof {
            let m = limbs::limbs_value(n@);
            let rv = limbs::limbs_value(r@);
            assert(w@.take(64) =~= w@);
            assert(r@.take(64) =~= r@);
            limbs::lemma_limbs_bound(n@);
            lemma_small_mod((m - rv - 1) as nat, limbs::radix_pow(64));
            lemma_fundamental_div_mod(product as int, m as int);
            lemma_mul_is_commutative(m as int, (product / m) as int);
        }

        let mut digits_b: [u32; COLUMNS] = [0u32; COLUMNS];
        let mut carries_b: [u128; 129] = [0u128; 129];

        proof {
            assert forall|k: int| 0 <= k < 128 implies #[trigger] bigint::column_sum(
                q@,
                n@,
                32,
                k,
            ) <= u128::MAX by {
                lemma_column_sum_bound(q@, n@, 32, k);
            }
        }
        column_sums(&q, n, &mut sums);
        let ghost sums_b = sums@;
        proof {
            lemma_columns_of_product(q@, n@, sums_b);
            lemma_totals_fit(q@, n@, sums_b, r@);
        }
        normalise(&sums, &r, &mut digits_b, &mut carries_b);
        proof {
            limbs::lemma_limbs_bound(digits@);
            lemma_digits_write(q@, n@, sums_b, r@, digits_b@, product);
            limbs::lemma_limbs_injective(digits_b@, digits@);
            assert(carries_of(carries_b@, q@, n@, r@)) by {
                lemma_carries_of(q@, n@, sums_b, r@, carries_b@);
            }
            assert(digits_of(digits_b@, q@, n@, r@));
        }

        if !same_digits(&digits_b, &digits) {
            return Err(
                Error::Protocol {
                    protocol: "modexp_chiplet",
                    message: "q · N + r does not reproduce x · y",
                },
            );
        }
        proof {
            reveal(Modmul::wf);
        }
        Ok(Modmul { x, y, q, r, w, digits, carries: [carries_a, carries_b] })
    }
}

/// `carries[k]` is the carry into column `k` of `a · b + add`.
pub open spec fn carries_of(
    carries: Seq<u128>,
    a: Seq<u32>,
    b: Seq<u32>,
    add: Seq<u32>,
) -> bool {
    &&& carries.len() == COLUMNS + 1
    &&& forall|k: int|
        0 <= k <= COLUMNS ==> (#[trigger] carries[k]) as nat == bigint::carry_into(
            product_columns(a, b),
            add,
            k as nat,
        )
}

/// `digits[k]` is digit `k` of `a · b + add`.
pub open spec fn digits_of(digits: Seq<u32>, a: Seq<u32>, b: Seq<u32>, add: Seq<u32>) -> bool {
    &&& digits.len() == COLUMNS
    &&& forall|k: int|
        0 <= k < COLUMNS ==> (#[trigger] digits[k]) as nat == bigint::column_total(
            product_columns(a, b),
            add,
            k as nat,
        ) % limbs::radix()
}

/// The [`COLUMNS`] column sums of `a · b`.
pub open spec fn product_columns(a: Seq<u32>, b: Seq<u32>) -> Seq<u128> {
    Seq::new(COLUMNS as nat, |k: int| bigint::column_sum(a, b, a.len() / 2, k) as u128)
}

pub proof fn lemma_columns_of_product(a: Seq<u32>, b: Seq<u32>, sums: Seq<u128>)
    requires
        a.len() == LIMBS32,
        b.len() == LIMBS32,
        sums.len() == COLUMNS,
        forall|k: int|
            0 <= k < COLUMNS ==> (#[trigger] sums[k]) as nat == bigint::column_sum(a, b, 32, k),
    ensures
        sums == product_columns(a, b),
        limbs::columns_value(limbs::wide(sums)) == limbs::limbs_value(a) * limbs::limbs_value(b),
        forall|k: int| 0 <= k < COLUMNS ==> (#[trigger] sums[k]) < pow2(101),
{
    assert forall|k: int| 0 <= k < COLUMNS implies sums[k] == #[trigger] product_columns(a, b)[k] by {
        assert(sums[k] as nat == bigint::column_sum(a, b, 32, k));
    }
    assert(sums =~= product_columns(a, b));
    bigint::law_columns_write_product(a, b, COLUMNS as nat);
    assert(limbs::wide(sums) =~= bigint::column_seq(a, b, 32, COLUMNS as nat));
    assert forall|k: int| 0 <= k < COLUMNS implies (#[trigger] sums[k]) < pow2(101) by {
        law_column_sums_below_2_101(a, b, k);
    }
}

proof fn lemma_totals_fit(a: Seq<u32>, b: Seq<u32>, sums: Seq<u128>, add: Seq<u32>)
    requires
        sums.len() == COLUMNS,
        forall|k: int| 0 <= k < COLUMNS ==> (#[trigger] sums[k]) < pow2(101),
    ensures
        forall|k: nat| k < COLUMNS ==> #[trigger] bigint::column_total(sums, add, k) <= u128::MAX,
{
    assert forall|k: nat| k < COLUMNS implies #[trigger] bigint::column_total(sums, add, k)
        <= u128::MAX by {
        law_carries_below_2_70(sums, add, k);
    }
}

proof fn lemma_digits_write(
    a: Seq<u32>,
    b: Seq<u32>,
    sums: Seq<u128>,
    add: Seq<u32>,
    digits: Seq<u32>,
    product: nat,
)
    requires
        sums.len() == COLUMNS,
        digits.len() == COLUMNS,
        add.len() <= COLUMNS,
        a.len() == LIMBS32,
        b.len() == LIMBS32,
        limbs::columns_value(limbs::wide(sums)) == limbs::limbs_value(a) * limbs::limbs_value(b),
        limbs::limbs_value(a) * limbs::limbs_value(b) + limbs::limbs_value(add) == product,
        add.len() > 0 ==> product < limbs::radix_pow(COLUMNS as nat),
        forall|k: int|
            0 <= k < COLUMNS ==> (#[trigger] digits[k]) as nat == bigint::column_total(
                sums,
                add,
                k as nat,
            ) % limbs::radix(),
    ensures
        limbs::limbs_value(digits) == product,
{
    bigint::law_normalise_keeps_value(sums, add, digits);
    limbs::lemma_limbs_bound(a);
    limbs::lemma_limbs_bound(b);
    limbs::lemma_radix_pow_adds(64, 64);
    let p = limbs::radix_pow(128);
    let (u, v) = (limbs::limbs_value(a), limbs::limbs_value(b));
    let h = limbs::radix_pow(64);
    assert(u * v < h * h) by (nonlinear_arith)
        requires
            u < h,
            v < h,
    ;
    if add.len() == 0 {
        assert(limbs::limbs_value(add) == 0);
    }
    let c = bigint::carry_into(sums, add, COLUMNS as nat);
    limbs::lemma_radix_pow(128);
    assert(c == 0) by (nonlinear_arith)
        requires
            c * p <= product,
            product < p,
    ;
    lemma_mul_basics(p as int);
}

proof fn lemma_carries_of(
    a: Seq<u32>,
    b: Seq<u32>,
    sums: Seq<u128>,
    add: Seq<u32>,
    carries: Seq<u128>,
)
    requires
        sums == product_columns(a, b),
        carries.len() == COLUMNS + 1,
        forall|k: int|
            0 <= k <= COLUMNS ==> (#[trigger] carries[k]) as nat == bigint::carry_into(
                sums,
                add,
                k as nat,
            ),
    ensures
        carries_of(carries, a, b, add),
{
}

/// A remainder below a number of [`LIMBS32`] limbs fits those limbs.
proof fn lemma_top_limb_zero(acc: Seq<u32>, n: Seq<u32>, product: nat)
    requires
        acc.len() == 65,
        n.len() == LIMBS32,
        limbs::limbs_value(n) > 0,
        limbs::limbs_value(acc) == product % limbs::limbs_value(n),
    ensures
        limbs::limbs_value(acc.take(64)) == limbs::limbs_value(acc),
        limbs::limbs_value(acc) < limbs::limbs_value(n),
{
    lemma_mod_bound(product as int, limbs::limbs_value(n) as int);
    limbs::lemma_limbs_bound(n);
    assert(acc.take(64) =~= acc.drop_last());
    let p = limbs::radix_pow(64);
    let top = acc.last() as nat;
    assert(top == 0) by (nonlinear_arith)
        requires
            top * p < p,
    ;
    lemma_mul_basics(p as int);
}

fn same_digits(a: &[u32; COLUMNS], b: &[u32; COLUMNS]) -> (r: bool)
    ensures
        r == (a@ == b@),
{
    for k in 0..COLUMNS
        invariant
            forall|c: int| 0 <= c < k ==> a@[c] == b@[c],
    {
        if a[k] != b[k] {
            return false;
        }
    }
    assert(a@ =~= b@);
    true
}

} // verus!
