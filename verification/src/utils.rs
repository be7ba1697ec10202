//! Choice of the commitment's split, and the clock.

use core::time::Duration;

use vstd::arithmetic::power2::*;
use vstd::prelude::*;

use crate::bits;

verus! {

/// Serialised size of one field element of the tensor vector: a tag byte and
/// sixteen more.
pub const Q_VECTOR_ELEM_BYTES: usize = 17;

/// The duration of a whole number of seconds.
pub uninterp spec fn seconds(secs: u64) -> Duration;

/// `Duration::from_secs`: its result is a function of the number of seconds.
pub assume_specification[ Duration::from_secs ](secs: u64) -> (r: Duration)
    ensures
        r == seconds(secs),
;

/// A clock for targets that have none: no time ever passes.
#[derive(Clone, Copy, Debug)]
pub struct Instant;

impl Instant {
    pub fn now() -> (r: Self)
        ensures
            r == Instant,
    {
        Instant
    }

    pub fn elapsed(&self) -> (r: Duration)
        ensures
            r == seconds(0),
    {
        Duration::from_secs(0)
    }
}

// ---------------------------------------------------------------
// The split
// ---------------------------------------------------------------

/// Bytes of the opened rows, per row of the grid; at least one.
pub open spec fn opened_cost(num_queries: nat, row_bytes: nat) -> nat {
    if num_queries * row_bytes == 0 {
        1
    } else {
        num_queries * row_bytes
    }
}

/// Proof bytes where `c` of the `n` variables index the tensor vector.
pub open spec fn split_cost(n: nat, opened: nat, c: nat) -> nat {
    17 * pow2(c) + opened * pow2((n - c) as nat)
}

/// `c` is the least split of least cost, from `from` to all variables.
pub open spec fn is_least_cost(n: nat, opened: nat, from: nat, c: nat) -> bool {
    &&& from <= c <= n
    &&& forall|d: nat| from <= d <= n ==> split_cost(n, opened, c) <= #[trigger] split_cost(
        n,
        opened,
        d,
    )
    &&& forall|d: nat| from <= d < c ==> split_cost(n, opened, c) < #[trigger] split_cost(
        n,
        opened,
        d,
    )
}

/// The least split that leaves the vector room for the support: at least one,
/// at most all variables.
pub open spec fn support_floor(n: nat, support_size: nat) -> nat {
    let floor = if support_size > 1 {
        bits::ceil_log2(support_size)
    } else {
        1
    };
    if floor <= n {
        floor
    } else {
        n
    }
}

/// The larger of two numbers.
pub open spec fn greatest(a: nat, b: nat) -> nat {
    if a >= b {
        a
    } else {
        b
    }
}

/// The costs of the two extreme splits are within machine range.
pub open spec fn costs_fit(n: nat, opened: nat) -> bool {
    split_cost(n, opened, 0) <= u128::MAX && split_cost(n, opened, n) <= u128::MAX
}

/// One more variable in the vector: its half doubles, the rows' half halves.
proof fn lemma_cost_step(n: nat, opened: nat, c: nat)
    requires
        c < n,
    ensures
        split_cost(n, opened, c + 1) - split_cost(n, opened, c) == 17 * pow2(c) - opened * pow2(
            (n - c - 1) as nat,
        ),
{
    lemma_pow2_unfold(c + 1);
    lemma_pow2_unfold((n - c) as nat);
    let p = pow2((n - c - 1) as nat);
    assert(opened * (2 * p) == 2 * (opened * p)) by (nonlinear_arith);
}

/// Once the cost stops falling it rises for good.
proof fn lemma_cost_rises(n: nat, opened: nat, c: nat, d: nat)
    requires
        c < d < n,
        split_cost(n, opened, c + 1) >= split_cost(n, opened, c),
    ensures
        split_cost(n, opened, d + 1) >= split_cost(n, opened, d),
        split_cost(n, opened, d) >= split_cost(n, opened, c),
    decreases d,
{
    if c + 1 < d {
        lemma_cost_rises(n, opened, c, (d - 1) as nat);
    }
    let b = (d - 1) as nat;
    lemma_cost_step(n, opened, b);
    lemma_cost_step(n, opened, d);
    lemma_pow2_unfold(d);
    lemma_pow2_unfold((n - d) as nat);
    let p = pow2((n - d - 1) as nat);
    assert(opened * p <= opened * (2 * p)) by (nonlinear_arith)
        requires
            p >= 0,
            opened >= 0,
    ;
}

/// The extreme splits cost the most.
proof fn lemma_cost_bound(n: nat, opened: nat, c: nat)
    requires
        c <= n,
    ensures
        split_cost(n, opened, c) <= greatest(split_cost(n, opened, 0), split_cost(n, opened, n)),
    decreases c,
{
    if 0 < c < n {
        let b = (c - 1) as nat;
        lemma_cost_bound(n, opened, b);
        if split_cost(n, opened, c) > split_cost(n, opened, b) {
            lemma_cost_rises_to(n, opened, b, n);
        }
    }
}

/// Where the cost stops falling, every later split costs no less.
proof fn lemma_cost_rises_to(n: nat, opened: nat, c: nat, d: nat)
    requires
        c < d <= n,
        split_cost(n, opened, c + 1) >= split_cost(n, opened, c),
    ensures
        split_cost(n, opened, d) >= split_cost(n, opened, c + 1),
    decreases d,
{
    if c + 1 < d {
        lemma_cost_rises_to(n, opened, c, (d - 1) as nat);
        lemma_cost_rises(n, opened, c, (d - 1) as nat);
    }
}

/// The cost of a split.
fn cost(num_vars: usize, opened: u128, c: usize) -> (r: u128)
    requires
        c <= num_vars,
        costs_fit(num_vars as nat, opened as nat),
        opened > 0,
    ensures
        r == split_cost(num_vars as nat, opened as nat, c as nat),
{
    proof {
        lemma_cost_bound(num_vars as nat, opened as nat, c as nat);
        let (a, b) = (pow2(c as nat), pow2((num_vars - c) as nat));
        lemma_pow2_pos(c as nat);
        lemma_pow2_pos((num_vars - c) as nat);
        assert(opened * b >= b) by (nonlinear_arith)
            requires
                opened >= 1,
                b > 0,
        ;
        lemma_small_exponent(c as nat);
        lemma_small_exponent((num_vars - c) as nat);
        bits::lemma_one_shl_u128(c as nat);
        bits::lemma_one_shl_u128((num_vars - c) as nat);
    }
    17 * (1u128 << (c as u128)) + opened * (1u128 << ((num_vars - c) as u128))
}

proof fn lemma_small_exponent(k: nat)
    requires
        pow2(k) <= u128::MAX,
    ensures
        k < 128,
{
    bits::lemma_pow2_monotone(128, k);
    lemma2_to64();
    lemma2_to64_rest();
    lemma_pow2_adds(64, 64);
    assert(pow2(128) > u128::MAX) by (nonlinear_arith)
        requires
            pow2(128) == pow2(64) * pow2(64),
            pow2(64) == 0x10000000000000000,
    ;
}

/// The number of variables that index the tensor vector: the first split of
/// least proof bytes among those that leave room for the support. The search
/// climbs from the least such split while the cost falls.
pub fn compute_split_vars(
    num_vars: usize,
    num_queries: usize,
    support_size: usize,
    row_bytes: usize,
) -> (r: usize)
    requires
        num_vars > 0 ==> num_queries * row_bytes <= usize::MAX,
        num_vars > 0 ==> costs_fit(
            num_vars as nat,
            opened_cost(num_queries as nat, row_bytes as nat),
        ),
    ensures
        num_vars == 0 ==> r == 0,
        num_vars > 0 ==> is_least_cost(
            num_vars as nat,
            opened_cost(num_queries as nat, row_bytes as nat),
            support_floor(num_vars as nat, support_size as nat),
            r as nat,
        ),
{
    if num_vars == 0 {
        return 0;
    }
    let product: usize = num_queries * row_bytes;
    let opened: u128 = if product == 0 {
        1
    } else {
        product as u128
    };
    let ghost n = num_vars as nat;
    let ghost o = opened as nat;
    let floor: usize = if support_size > 1 {
        bits::ilog2((support_size - 1) as u128) as usize + 1
    } else {
        1
    };
    let start: usize = if floor <= num_vars {
        floor
    } else {
        num_vars
    };
    let mut best: usize = start;
    while best < num_vars && cost(num_vars, opened, best + 1) < cost(num_vars, opened, best)
        invariant
            start <= best <= num_vars,
            n == num_vars,
            o == opened,
            o > 0,
            costs_fit(n, o),
            forall|d: nat| start <= d < best ==> split_cost(n, o, best as nat)
                < #[trigger] split_cost(n, o, d),
        decreases num_vars - best,
    {
        best = best + 1;
    }
    proof {
        assert forall|d: nat| start <= d <= n implies split_cost(n, o, best as nat)
            <= #[trigger] split_cost(n, o, d) by {
            if d > best {
                lemma_cost_rises_to(n, o, best as nat, d);
            }
        }
    }
    best
}

/// Where the split stands. The vector has room for the support, or all
/// variables. One variable more would add at least as many bytes to the
/// vector, seventeen an element, as it takes off the opened rows; and where
/// one variable fewer had still been allowed, it would have cost more.
pub proof fn law_split_is_balanced(n: nat, queries: nat, support: nat, row_bytes: nat, c: nat)
    requires
        n > 0,
        is_least_cost(n, opened_cost(queries, row_bytes), support_floor(n, support), c),
    ensures
        ({
            let opened = greatest(queries * row_bytes, 1);
            &&& 1 <= c <= n
            &&& c == n || support <= pow2(c)
            &&& c < n ==> 17 * pow2(c) >= opened * pow2((n - c - 1) as nat)
            &&& c > 1 && support <= pow2((c - 1) as nat) ==> 17 * pow2((c - 1) as nat) < opened
                * pow2((n - c) as nat)
        }),
{
    let o = opened_cost(queries, row_bytes);
    let f = support_floor(n, support);
    lemma2_to64();
    bits::lemma_ceil_log2(support);
    let l = bits::ceil_log2(support);
    if support > 1 && f == l {
        bits::lemma_pow2_monotone(l, c);
    }
    lemma_pow2_pos(c);
    if c < n {
        lemma_cost_step(n, o, c);
        assert(split_cost(n, o, c) <= split_cost(n, o, c + 1));
    }
    if c > 1 && support <= pow2((c - 1) as nat) {
        let b = (c - 1) as nat;
        if support > 1 && l > b {
            bits::lemma_pow2_monotone(b, (l - 1) as nat);
        }
        assert(f <= b);
        lemma_cost_step(n, o, b);
        assert(split_cost(n, o, c) < split_cost(n, o, b));
        assert(n - b - 1 == n - c);
    }
}

} // verus!
