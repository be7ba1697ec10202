//! Multiplications have witnesses, and no others.

use vstd::arithmetic::mul::*;
use vstd::arithmetic::power2::*;
use vstd::prelude::*;

use super::int_arith;
use super::int_laws;
use crate::field::gf;
use crate::program::constraint;

verus! {

// ---------------------------------------------------------------
// Multiplication by a constant
// ---------------------------------------------------------------

/// The sum of the copies `0..=j` of an operand, in its columns.
pub open spec fn copies_sum(operand: Seq<u128>, shifts: Seq<usize>, j: nat) -> Seq<u128> {
    int_laws::bits_of(
        int_laws::bits_value(operand) * int_arith::power_sum(shifts.take((j + 1) as int)),
        int_arith::copies_width(shifts, operand.len(), j),
    )
}

/// What copy `j` is added to: the first copy, or the sum of those before.
pub open spec fn addend(operand: Seq<u128>, shifts: Seq<usize>, j: nat) -> Seq<u128> {
    let width = int_arith::copies_width(shifts, operand.len(), j);
    if j == 1 {
        int_arith::shifted(operand, shifts[0] as int, width)
    } else {
        int_arith::padded(copies_sum(operand, shifts, (j - 1) as nat), width)
    }
}

/// Copy `j`, as wide as the sum.
pub open spec fn copy_at(operand: Seq<u128>, shifts: Seq<usize>, j: nat) -> Seq<u128> {
    int_arith::shifted(
        operand,
        shifts[j as int] as int,
        int_arith::copies_width(shifts, operand.len(), j),
    )
}

/// The scratch sums of a multiplication by a constant.
pub open spec fn scratch_sums(operand: Seq<u128>, constant: u32) -> Seq<Seq<u128>> {
    let shifts = int_arith::set_positions(constant, 32);
    Seq::new(
        if shifts.len() >= 2 {
            (shifts.len() - 2) as nat
        } else {
            0
        },
        |j: int| copies_sum(operand, shifts, (j + 1) as nat),
    )
}

/// The scratch carries of a multiplication by a constant.
pub open spec fn scratch_carries(operand: Seq<u128>, constant: u32) -> Seq<Seq<u128>> {
    let shifts = int_arith::set_positions(constant, 32);
    Seq::new(
        if shifts.len() >= 1 {
            (shifts.len() - 1) as nat
        } else {
            0
        },
        |j: int|
            int_laws::carries_of(
                addend(operand, shifts, (j + 1) as nat),
                copy_at(operand, shifts, (j + 1) as nat),
            ),
    )
}

/// The sum of some copies fits its columns.
proof fn lemma_copies_sum(operand: Seq<u128>, shifts: Seq<usize>, j: nat)
    requires
        int_laws::boolean(operand),
        j < shifts.len(),
    ensures
        int_laws::boolean(copies_sum(operand, shifts, j)),
        int_laws::bits_value(copies_sum(operand, shifts, j)) == int_laws::bits_value(operand)
            * int_arith::power_sum(shifts.take((j + 1) as int)),
    decreases j,
{
    let v = int_laws::bits_value(operand);
    let n = operand.len();
    let width = int_arith::copies_width(shifts, n, j);
    let x = v * int_arith::power_sum(shifts.take((j + 1) as int));
    let s = shifts[j as int] as nat;
    int_laws::lemma_shifted_bound(operand, s);
    lemma_mul_is_commutative(v as int, pow2(s) as int);
    assert(shifts.take((j + 1) as int).drop_last() =~= shifts.take(j as int));
    lemma_mul_is_distributive_add(
        v as int,
        int_arith::power_sum(shifts.take(j as int)) as int,
        pow2(s) as int,
    );
    if j == 0 {
        assert(shifts.take(0) =~= Seq::<usize>::empty());
        assert(int_arith::power_sum(shifts.take(0)) == 0);
        lemma_mul_basics(v as int);
    } else {
        let before = int_arith::copies_width(shifts, n, (j - 1) as nat);
        let prev = copies_sum(operand, shifts, (j - 1) as nat);
        lemma_copies_sum(operand, shifts, (j - 1) as nat);
        int_laws::lemma_bits_bound(prev);
        let below = (width - 1) as nat;
        int_laws::lemma_pow2_le(before, below);
        int_laws::lemma_pow2_le(s + n, below);
        lemma_pow2_unfold(width);
    }
    assert(x < pow2(width));
    vstd::arithmetic::div_mod::lemma_small_mod(x, pow2(width));
    int_laws::lemma_bits_of(x, width);
}

/// Adding copy `j` to what stands before it gives the next sum, with these
/// carries.
proof fn lemma_copy_added(operand: Seq<u128>, shifts: Seq<usize>, j: nat)
    requires
        int_laws::boolean(operand),
        1 <= j < shifts.len(),
    ensures
        ({
            let (a, b) = (addend(operand, shifts, j), copy_at(operand, shifts, j));
            let r = copies_sum(operand, shifts, j);
            let c = int_laws::carries_of(a, b);
            &&& int_laws::boolean(a)
            &&& int_laws::boolean(b)
            &&& int_laws::add_shape(a, b, r, c)
            &&& int_laws::all_zero(int_arith::add_chain(a, b, r, c))
        }),
{
    let v = int_laws::bits_value(operand);
    let n = operand.len();
    let width = int_arith::copies_width(shifts, n, j);
    let below = (width - 1) as nat;
    let before = int_arith::copies_width(shifts, n, (j - 1) as nat);
    let (a, b) = (addend(operand, shifts, j), copy_at(operand, shifts, j));
    let r = copies_sum(operand, shifts, j);
    let s = shifts[j as int] as nat;
    int_laws::lemma_shifted_value(operand, s, width);
    int_laws::lemma_shifted_bound(operand, s);
    int_laws::lemma_pow2_le(s + n, below);
    int_laws::lemma_pow2_le(before, below);
    lemma_copies_sum(operand, shifts, j);
    lemma_copies_sum(operand, shifts, (j - 1) as nat);
    let prev = copies_sum(operand, shifts, (j - 1) as nat);
    int_laws::lemma_bits_bound(prev);
    lemma_mul_is_commutative(v as int, pow2(s) as int);
    assert(shifts.take((j + 1) as int).drop_last() =~= shifts.take(j as int));
    lemma_mul_is_distributive_add(
        v as int,
        int_arith::power_sum(shifts.take(j as int)) as int,
        pow2(s) as int,
    );
    if j == 1 {
        let s0 = shifts[0] as nat;
        int_laws::lemma_shifted_value(operand, s0, width);
        assert(shifts.take(1).drop_last() =~= Seq::<usize>::empty());
        assert(int_arith::power_sum(shifts.take(1).drop_last()) == 0);
        assert(int_arith::power_sum(shifts.take(1)) == pow2(s0));
        lemma_mul_is_commutative(v as int, pow2(s0) as int);
    } else {
        int_laws::lemma_padded_value(prev, width);
    }
    let w = int_laws::law_add_complete(a, b);
    int_laws::lemma_wide_add(a, b, w.0, w.1, below);
    int_laws::lemma_bits_unique(w.0);
    int_laws::lemma_bits_unique(r);
}

/// The first `j` additions hold of these scratch values.
proof fn lemma_adds_hold(operand: Seq<u128>, result: Seq<u128>, constant: u32, j: nat)
    requires
        int_laws::boolean(operand),
        ({
            let shifts = int_arith::set_positions(constant, 32);
            &&& j < shifts.len()
            &&& result == copies_sum(operand, shifts, (shifts.len() - 1) as nat)
        }),
    ensures
        int_laws::all_zero(
            int_arith::mul_const_adds(
                operand,
                result,
                scratch_sums(operand, constant),
                scratch_carries(operand, constant),
                int_arith::set_positions(constant, 32),
                j,
            ),
        ),
    decreases j,
{
    let shifts = int_arith::set_positions(constant, 32);
    let m = shifts.len() as int;
    let (sums, carries) = (scratch_sums(operand, constant), scratch_carries(operand, constant));
    if j > 0 {
        lemma_adds_hold(operand, result, constant, (j - 1) as nat);
        lemma_copy_added(operand, shifts, j);
        let target = int_arith::partial_target(result, sums, m, j as int);
        assert(target == copies_sum(operand, shifts, j));
        if j > 1 {
            assert(int_arith::partial_target(result, sums, m, j - 1) == copies_sum(
                operand,
                shifts,
                (j - 1) as nat,
            ));
        }
        int_laws::lemma_all_zero_append(
            int_arith::mul_const_adds(operand, result, sums, carries, shifts, (j - 1) as nat),
            int_arith::add_chain(
                addend(operand, shifts, j),
                copy_at(operand, shifts, j),
                target,
                carries[j - 1],
            ),
        );
    }
}

/// Where the result is `operand · constant`, there are scratch values with
/// which the constraints of [`mul_const`](int_arith::mul_const) hold.
pub proof fn law_mul_const_complete(operand: Seq<u128>, result: Seq<u128>, constant: u32)
    requires
        constant > 0,
        int_laws::boolean(operand),
        int_laws::boolean(result),
        ({
            let shifts = int_arith::set_positions(constant, 32);
            result.len() == int_arith::copies_width(
                shifts,
                operand.len(),
                (shifts.len() - 1) as nat,
            )
        }),
        int_laws::bits_value(result) == int_laws::bits_value(operand) * constant,
    ensures
        int_laws::mul_const_fits(
            operand.len(),
            result,
            scratch_sums(operand, constant),
            scratch_carries(operand, constant),
            constant,
        ),
        int_laws::all_zero(
            int_arith::mul_const_chain(
                operand,
                result,
                scratch_sums(operand, constant),
                scratch_carries(operand, constant),
                constant,
            ),
        ),
{
    let shifts = int_arith::set_positions(constant, 32);
    let m = shifts.len() as int;
    let (sums, carries) = (scratch_sums(operand, constant), scratch_carries(operand, constant));
    int_arith::lemma_set_positions_sum(constant, 32);
    lemma2_to64();
    vstd::arithmetic::div_mod::lemma_small_mod(constant as nat, pow2(32));
    if m == 0 {
        assert(int_arith::power_sum(shifts) == 0);
    }
    assert(shifts.take(m) =~= shifts);
    int_laws::lemma_bits_unique(result);
    assert(result == copies_sum(operand, shifts, (m - 1) as nat));
    if m == 1 {
        let s = shifts[0] as nat;
        let copy = int_arith::shifted(operand, s as int, result.len());
        int_laws::lemma_shifted_value(operand, s, result.len());
        assert(shifts.drop_last() =~= Seq::<usize>::empty());
        assert(int_arith::power_sum(shifts.drop_last()) == 0);
        lemma_mul_is_commutative(int_laws::bits_value(operand) as int, pow2(s) as int);
        int_laws::lemma_bits_unique(copy);
        assert(result == copy);
        let chain = int_arith::mul_const_chain(operand, result, sums, carries, constant);
        assert forall|k: int| 0 <= k < chain.len() implies #[trigger] chain[k] == 0 by {
            int_laws::lemma_xor(result[k], copy[k]);
        }
    } else {
        lemma_adds_hold(operand, result, constant, (m - 1) as nat);
    }
}

/// The constraints of [`mul_const`](int_arith::mul_const) leave no choice of
/// scratch values.
pub proof fn law_mul_const_unique(
    operand: Seq<u128>,
    result: Seq<u128>,
    results: Seq<Seq<u128>>,
    carries: Seq<Seq<u128>>,
    constant: u32,
)
    requires
        constant > 0,
        int_laws::boolean(operand),
        int_laws::mul_const_fits(operand.len(), result, results, carries, constant),
        int_laws::all_zero(
            int_arith::mul_const_chain(operand, result, results, carries, constant),
        ),
        int_arith::set_positions(constant, 32).len() >= 2,
    ensures
        results == scratch_sums(operand, constant),
        carries == scratch_carries(operand, constant),
{
    let shifts = int_arith::set_positions(constant, 32);
    let m = shifts.len() as int;
    assert forall|j: int| 0 <= j < m - 2 implies results[j] == scratch_sums(
        operand,
        constant,
    )[j] by {
        lemma_target_unique(operand, result, results, carries, constant, (j + 1) as nat);
    }
    assert forall|j: int| 0 <= j < m - 1 implies carries[j] == scratch_carries(
        operand,
        constant,
    )[j] by {
        lemma_target_unique(operand, result, results, carries, constant, (j + 1) as nat);
    }
    assert(results =~= scratch_sums(operand, constant));
    assert(carries =~= scratch_carries(operand, constant));
}

/// The additions up to a later one hold the earlier ones.
proof fn lemma_adds_before(
    operand: Seq<u128>,
    result: Seq<u128>,
    results: Seq<Seq<u128>>,
    carries: Seq<Seq<u128>>,
    shifts: Seq<usize>,
    j: nat,
    k: nat,
)
    requires
        j <= k,
        int_laws::all_zero(
            int_arith::mul_const_adds(operand, result, results, carries, shifts, k),
        ),
    ensures
        int_laws::all_zero(
            int_arith::mul_const_adds(operand, result, results, carries, shifts, j),
        ),
    decreases k,
{
    if j < k {
        let m = shifts.len() as int;
        let target = int_arith::partial_target(result, results, m, k as int);
        let left = if k == 1 {
            int_arith::shifted(operand, shifts[0] as int, target.len())
        } else {
            int_arith::padded(int_arith::partial_target(result, results, m, k - 1), target.len())
        };
        int_laws::lemma_all_zero_append(
            int_arith::mul_const_adds(operand, result, results, carries, shifts, (k - 1) as nat),
            int_arith::add_chain(
                left,
                int_arith::shifted(operand, shifts[k as int] as int, target.len()),
                target,
                carries[k - 1],
            ),
        );
        lemma_adds_before(operand, result, results, carries, shifts, j, (k - 1) as nat);
    }
}

proof fn lemma_target_unique(
    operand: Seq<u128>,
    result: Seq<u128>,
    results: Seq<Seq<u128>>,
    carries: Seq<Seq<u128>>,
    constant: u32,
    j: nat,
)
    requires
        int_laws::boolean(operand),
        int_laws::mul_const_fits(operand.len(), result, results, carries, constant),
        1 <= j < int_arith::set_positions(constant, 32).len(),
        int_laws::all_zero(
            int_arith::mul_const_chain(operand, result, results, carries, constant),
        ),
    ensures
        ({
            let shifts = int_arith::set_positions(constant, 32);
            let m = shifts.len() as int;
            &&& int_arith::partial_target(result, results, m, j as int) == copies_sum(
                operand,
                shifts,
                j,
            )
            &&& carries[j - 1] == int_laws::carries_of(
                addend(operand, shifts, j),
                copy_at(operand, shifts, j),
            )
        }),
{
    let shifts = int_arith::set_positions(constant, 32);
    let m = shifts.len() as int;
    let target = int_arith::partial_target(result, results, m, j as int);
    lemma_adds_before(operand, result, results, carries, shifts, j, (m - 1) as nat);
    int_laws::lemma_mul_const_adds(operand, result, results, carries, constant, j);
    int_laws::lemma_bits_unique(target);
    let prev = int_arith::partial_target(result, results, m, j - 1);
    if j > 1 {
        lemma_adds_before(operand, result, results, carries, shifts, (j - 1) as nat, j);
        int_laws::lemma_mul_const_adds(
            operand,
            result,
            results,
            carries,
            constant,
            (j - 1) as nat,
        );
        int_laws::lemma_bits_unique(prev);
    }
    let (a, b) = (addend(operand, shifts, j), copy_at(operand, shifts, j));
    int_laws::lemma_all_zero_append(
        int_arith::mul_const_adds(operand, result, results, carries, shifts, (j - 1) as nat),
        int_arith::add_chain(a, b, target, carries[j - 1]),
    );
    lemma_copy_added(operand, shifts, j);
    int_laws::law_add_chain(a, b, target, carries[j - 1]);
    int_laws::lemma_carries_unique(a, b, target, carries[j - 1]);
}

// ---------------------------------------------------------------
// Schoolbook multiplication
// ---------------------------------------------------------------

/// The first partial product.
pub open spec fn first_product(a: Seq<u128>, b: Seq<u128>) -> Seq<u128> {
    Seq::new(
        a.len(),
        |k: int|
            if b[0] == 1 {
                a[k]
            } else {
                0
            },
    )
}

/// The sum of the partial products `0..=j`, in its columns.
pub open spec fn products_sum(a: Seq<u128>, b: Seq<u128>, j: nat) -> Seq<u128> {
    int_laws::bits_of(
        int_laws::bits_value(a) * int_laws::bits_value(b.take((j + 1) as int)),
        a.len() + j + 1,
    )
}

/// What partial product `j` is added to: the first, or the sum of those
/// before.
pub open spec fn products_before(a: Seq<u128>, b: Seq<u128>, j: nat) -> Seq<u128> {
    if j == 1 {
        int_arith::padded(first_product(a, b), a.len() + j + 1)
    } else {
        int_arith::padded(products_sum(a, b, (j - 1) as nat), a.len() + j + 1)
    }
}

/// Partial product `j`, as wide as the sum.
pub open spec fn product_at(a: Seq<u128>, b: Seq<u128>, j: nat) -> Seq<u128> {
    int_arith::partial_product(a, b[j as int], j as int, a.len() + j + 1)
}

/// The scratch sums of a multiplication.
pub open spec fn product_sums(a: Seq<u128>, b: Seq<u128>) -> Seq<Seq<u128>> {
    Seq::new(
        if b.len() >= 2 {
            (b.len() - 2) as nat
        } else {
            0
        },
        |j: int| products_sum(a, b, (j + 1) as nat),
    )
}

/// The scratch carries of a multiplication.
pub open spec fn product_carries(a: Seq<u128>, b: Seq<u128>) -> Seq<Seq<u128>> {
    Seq::new(
        if b.len() >= 1 {
            (b.len() - 1) as nat
        } else {
            0
        },
        |j: int|
            int_laws::carries_of(
                products_before(a, b, (j + 1) as nat),
                product_at(a, b, (j + 1) as nat),
            ),
    )
}

proof fn lemma_first_product(a: Seq<u128>, b: Seq<u128>)
    requires
        int_laws::boolean(a),
        int_laws::boolean(b),
        b.len() > 0,
    ensures
        int_laws::boolean(first_product(a, b)),
        int_laws::bits_value(first_product(a, b)) == b[0] * int_laws::bits_value(a),
{
    let p = first_product(a, b);
    assert(b[0] <= 1);
    lemma_mul_basics(int_laws::bits_value(a) as int);
    if b[0] == 1 {
        assert(p =~= a);
    } else {
        assert(int_laws::all_zero(p));
        int_laws::lemma_zero_value(p);
    }
}

/// The sum of some partial products fits its columns.
proof fn lemma_products_sum(a: Seq<u128>, b: Seq<u128>, j: nat)
    requires
        int_laws::boolean(a),
        int_laws::boolean(b),
        j < b.len(),
    ensures
        int_laws::boolean(products_sum(a, b, j)),
        int_laws::bits_value(products_sum(a, b, j)) == int_laws::bits_value(a)
            * int_laws::bits_value(b.take((j + 1) as int)),
{
    let t = b.take((j + 1) as int);
    let (v, x) = (int_laws::bits_value(a), int_laws::bits_value(t));
    let width = a.len() + j + 1;
    assert forall|i: int| 0 <= i < t.len() implies #[trigger] t[i] <= 1 by {
        assert(b[i] <= 1);
    }
    int_laws::lemma_bits_bound(a);
    int_laws::lemma_bits_bound(t);
    lemma_pow2_adds(a.len(), j + 1);
    let (p, q) = (pow2(a.len()), pow2(j + 1));
    assert(v * x < p * q) by (nonlinear_arith)
        requires
            0 <= v < p,
            0 <= x < q,
    ;
    vstd::arithmetic::div_mod::lemma_small_mod(v * x, pow2(width));
    int_laws::lemma_bits_of(v * x, width);
}

/// Adding partial product `j` to what stands before it gives the next sum,
/// with these carries.
proof fn lemma_product_added(a: Seq<u128>, b: Seq<u128>, j: nat)
    requires
        int_laws::boolean(a),
        int_laws::boolean(b),
        1 <= j < b.len(),
    ensures
        ({
            let (x, y) = (products_before(a, b, j), product_at(a, b, j));
            let r = products_sum(a, b, j);
            let c = int_laws::carries_of(x, y);
            &&& int_laws::boolean(x)
            &&& int_laws::boolean(y)
            &&& int_laws::add_shape(x, y, r, c)
            &&& int_laws::all_zero(int_arith::add_chain(x, y, r, c))
        }),
{
    let n = a.len();
    let v = int_laws::bits_value(a);
    let width = n + j + 1;
    let below = n + j;
    let (x, y) = (products_before(a, b, j), product_at(a, b, j));
    let r = products_sum(a, b, j);
    assert(b[j as int] <= 1);
    int_laws::lemma_partial_product(a, b[j as int], j, width);
    int_laws::lemma_shifted_bound(a, j);
    lemma_products_sum(a, b, j);
    lemma_products_sum(a, b, (j - 1) as nat);
    lemma_first_product(a, b);
    let prev = products_sum(a, b, (j - 1) as nat);
    int_laws::lemma_bits_bound(prev);
    int_laws::lemma_bits_take(b, j as int);
    lemma_mul_basics(v as int);
    lemma_mul_basics(pow2(j) as int);
    assert(int_laws::bits_value(y) < pow2(below)) by {
        assert(j + n == below);
        if b[j as int] == 0 {
            lemma_pow2_pos(below);
        }
    }
    if j == 1 {
        let p = first_product(a, b);
        int_laws::lemma_padded_value(p, width);
        int_laws::lemma_bits_bound(p);
        int_laws::lemma_pow2_le(n, below);
        int_laws::lemma_bits_take(b, 0);
        assert(b.take(0) =~= Seq::<u128>::empty());
        assert(int_laws::bits_value(b.take(0)) == 0);
        lemma2_to64();
        lemma_mul_basics(b[0] as int);
        lemma_mul_is_commutative(v as int, b[0] as int);
    } else {
        int_laws::lemma_padded_value(prev, width);
        assert(prev.len() == below);
    }
    let (s, t, q) = (int_laws::bits_value(b.take(j as int)), b[j as int] as nat, pow2(j));
    assert(v * s + q * (t * v) == v * (s + t * q)) by (nonlinear_arith);
    let w = int_laws::law_add_complete(x, y);
    int_laws::lemma_wide_add(x, y, w.0, w.1, below);
    int_laws::lemma_bits_unique(w.0);
    int_laws::lemma_bits_unique(r);
}

/// The first `j` additions hold of these scratch values.
proof fn lemma_products_hold(a: Seq<u128>, b: Seq<u128>, product: Seq<u128>, j: nat)
    requires
        int_laws::boolean(a),
        int_laws::boolean(b),
        j < b.len(),
        product == products_sum(a, b, (b.len() - 1) as nat),
    ensures
        int_laws::all_zero(
            int_arith::schoolbook_adds(
                a,
                b,
                product,
                first_product(a, b),
                product_sums(a, b),
                product_carries(a, b),
                j,
            ),
        ),
    decreases j,
{
    let m = b.len() as int;
    let (p, sums, carries) = (first_product(a, b), product_sums(a, b), product_carries(a, b));
    if j > 0 {
        lemma_products_hold(a, b, product, (j - 1) as nat);
        lemma_product_added(a, b, j);
        let target = int_arith::partial_target(product, sums, m, j as int);
        assert(target == products_sum(a, b, j));
        if j > 1 {
            assert(int_arith::partial_target(product, sums, m, j - 1) == products_sum(
                a,
                b,
                (j - 1) as nat,
            ));
        }
        int_laws::lemma_all_zero_append(
            int_arith::schoolbook_adds(a, b, product, p, sums, carries, (j - 1) as nat),
            int_arith::add_chain(
                products_before(a, b, j),
                product_at(a, b, j),
                target,
                carries[j - 1],
            ),
        );
    }
}

/// The first partial product meets its constraints.
proof fn lemma_first_holds(a: Seq<u128>, b: Seq<u128>, n: nat)
    requires
        int_laws::boolean(a),
        int_laws::boolean(b),
        b.len() > 0,
        n <= a.len(),
    ensures
        int_laws::all_zero(int_arith::pp0_steps(a, b[0], first_product(a, b), n)),
    decreases n,
{
    if n > 0 {
        let k = n - 1;
        let p = first_product(a, b);
        lemma_first_holds(a, b, k as nat);
        assert(a[k] <= 1 && b[0] <= 1);
        int_laws::law_boolean_residue(p[k]);
        int_laws::lemma_mul_boolean(b[0], a[k]);
        int_laws::lemma_xor(p[k], gf::gf128_mul(b[0], a[k]));
        let step = seq![
            constraint::boolean_residue(p[k]),
            if k < a.len() {
                p[k] ^ gf::gf128_mul(b[0], a[k])
            } else {
                p[k]
            },
        ];
        int_laws::lemma_all_zero_append(int_arith::pp0_steps(a, b[0], p, k as nat), step);
        assert(int_laws::all_zero(step));
    }
}

/// Where the product is `a · b`, there are scratch values with which the
/// constraints of [`schoolbook_mul`](int_arith::schoolbook_mul) hold.
pub proof fn law_schoolbook_complete(a: Seq<u128>, b: Seq<u128>, product: Seq<u128>)
    requires
        a.len() > 0,
        a.len() == b.len(),
        int_laws::boolean(a),
        int_laws::boolean(b),
        int_laws::boolean(product),
        product.len() == 2 * a.len(),
        int_laws::bits_value(product) == int_laws::bits_value(a) * int_laws::bits_value(b),
    ensures
        int_laws::schoolbook_fits(
            a.len(),
            product,
            first_product(a, b),
            product_sums(a, b),
            product_carries(a, b),
        ),
        int_laws::all_zero(
            int_arith::schoolbook_chain(
                a,
                b,
                product,
                first_product(a, b),
                product_sums(a, b),
                product_carries(a, b),
            ),
        ),
{
    let n = a.len();
    let (p, sums, carries) = (first_product(a, b), product_sums(a, b), product_carries(a, b));
    assert(b.take(n as int) =~= b);
    int_laws::lemma_bits_unique(product);
    assert(product == products_sum(a, b, (n - 1) as nat));
    lemma_first_holds(a, b, n);
    let head = int_arith::pp0_steps(a, b[0], p, p.len());
    if n == 1 {
        let tail = Seq::new(
            product.len(),
            |k: int|
                if k < p.len() {
                    product[k] ^ p[k]
                } else {
                    product[k]
                },
        );
        lemma_first_product(a, b);
        let pad = int_arith::padded(p, product.len());
        int_laws::lemma_padded_value(p, product.len());
        int_laws::lemma_bits_unique(pad);
        int_laws::lemma_bits_take(b, 0);
        assert(b.take(0) =~= Seq::<u128>::empty());
        assert(int_laws::bits_value(b.take(0)) == 0);
        lemma2_to64();
        lemma_mul_basics(b[0] as int);
        lemma_mul_is_commutative(int_laws::bits_value(a) as int, b[0] as int);
        assert(product == pad);
        assert forall|k: int| 0 <= k < tail.len() implies #[trigger] tail[k] == 0 by {
            int_laws::lemma_xor(product[k], pad[k]);
        }
        int_laws::lemma_all_zero_append(head, tail);
    } else {
        lemma_products_hold(a, b, product, (n - 1) as nat);
        int_laws::lemma_all_zero_append(
            head,
            int_arith::schoolbook_adds(a, b, product, p, sums, carries, (n - 1) as nat),
        );
    }
}

/// The additions up to a later one hold the earlier ones.
proof fn lemma_products_earlier(
    a: Seq<u128>,
    b: Seq<u128>,
    product: Seq<u128>,
    pp0: Seq<u128>,
    sums: Seq<Seq<u128>>,
    carries: Seq<Seq<u128>>,
    j: nat,
    k: nat,
)
    requires
        j <= k,
        int_laws::all_zero(int_arith::schoolbook_adds(a, b, product, pp0, sums, carries, k)),
    ensures
        int_laws::all_zero(int_arith::schoolbook_adds(a, b, product, pp0, sums, carries, j)),
    decreases k,
{
    if j < k {
        let m = b.len() as int;
        let target = int_arith::partial_target(product, sums, m, k as int);
        let left = if k == 1 {
            int_arith::padded(pp0, target.len())
        } else {
            int_arith::padded(int_arith::partial_target(product, sums, m, k - 1), target.len())
        };
        int_laws::lemma_all_zero_append(
            int_arith::schoolbook_adds(a, b, product, pp0, sums, carries, (k - 1) as nat),
            int_arith::add_chain(
                left,
                int_arith::partial_product(a, b[k as int], k as int, target.len()),
                target,
                carries[k - 1],
            ),
        );
        lemma_products_earlier(a, b, product, pp0, sums, carries, j, (k - 1) as nat);
    }
}

proof fn lemma_product_unique(
    a: Seq<u128>,
    b: Seq<u128>,
    product: Seq<u128>,
    pp0: Seq<u128>,
    sums: Seq<Seq<u128>>,
    carries: Seq<Seq<u128>>,
    j: nat,
)
    requires
        a.len() == b.len(),
        int_laws::boolean(a),
        int_laws::boolean(b),
        int_laws::schoolbook_fits(a.len(), product, pp0, sums, carries),
        pp0 == first_product(a, b),
        1 <= j < b.len(),
        int_laws::all_zero(
            int_arith::schoolbook_adds(
                a,
                b,
                product,
                pp0,
                sums,
                carries,
                (b.len() - 1) as nat,
            ),
        ),
    ensures
        int_arith::partial_target(product, sums, b.len() as int, j as int) == products_sum(
            a,
            b,
            j,
        ),
        carries[j - 1] == int_laws::carries_of(products_before(a, b, j), product_at(a, b, j)),
{
    let m = b.len() as int;
    let last = (m - 1) as nat;
    let target = int_arith::partial_target(product, sums, m, j as int);
    lemma_first_product(a, b);
    lemma_products_earlier(a, b, product, pp0, sums, carries, j, last);
    int_laws::lemma_schoolbook_adds(a, b, product, pp0, sums, carries, j);
    int_laws::lemma_bits_unique(target);
    if j > 1 {
        lemma_products_earlier(a, b, product, pp0, sums, carries, (j - 1) as nat, last);
        int_laws::lemma_schoolbook_adds(a, b, product, pp0, sums, carries, (j - 1) as nat);
        int_laws::lemma_bits_unique(int_arith::partial_target(product, sums, m, j - 1));
    }
    let (x, y) = (products_before(a, b, j), product_at(a, b, j));
    assert(carries[j - 1].len() == a.len() + 3 + (j - 1));
    int_laws::lemma_all_zero_append(
        int_arith::schoolbook_adds(a, b, product, pp0, sums, carries, (j - 1) as nat),
        int_arith::add_chain(x, y, target, carries[j - 1]),
    );
    lemma_product_added(a, b, j);
    int_laws::law_add_chain(x, y, target, carries[j - 1]);
    int_laws::lemma_carries_unique(x, y, target, carries[j - 1]);
}

/// The constraints of [`schoolbook_mul`](int_arith::schoolbook_mul) leave no
/// choice of scratch values.
pub proof fn law_schoolbook_unique(
    a: Seq<u128>,
    b: Seq<u128>,
    product: Seq<u128>,
    pp0: Seq<u128>,
    sums: Seq<Seq<u128>>,
    carries: Seq<Seq<u128>>,
)
    requires
        a.len() >= 2,
        a.len() == b.len(),
        int_laws::boolean(a),
        int_laws::boolean(b),
        int_laws::schoolbook_fits(a.len(), product, pp0, sums, carries),
        int_laws::all_zero(int_arith::schoolbook_chain(a, b, product, pp0, sums, carries)),
    ensures
        pp0 == first_product(a, b),
        sums == product_sums(a, b),
        carries == product_carries(a, b),
{
    let n = a.len();
    let head = int_arith::pp0_steps(a, b[0], pp0, pp0.len());
    let tail = int_arith::schoolbook_adds(
        a,
        b,
        product,
        pp0,
        sums,
        carries,
        (b.len() - 1) as nat,
    );
    int_laws::lemma_all_zero_append(head, tail);
    assert(b[0] <= 1);
    int_laws::lemma_pp0(a, b[0], pp0, n);
    assert(pp0 =~= first_product(a, b));
    assert forall|j: int| 0 <= j < n - 2 implies sums[j] == product_sums(a, b)[j] by {
        lemma_product_unique(a, b, product, pp0, sums, carries, (j + 1) as nat);
    }
    assert forall|j: int| 0 <= j < n - 1 implies carries[j] == product_carries(a, b)[j] by {
        lemma_product_unique(a, b, product, pp0, sums, carries, (j + 1) as nat);
    }
    assert(sums =~= product_sums(a, b));
    assert(carries =~= product_carries(a, b));
}

} // verus!
