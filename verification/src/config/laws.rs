//! What the integer estimates say of the real ones.

use vstd::arithmetic::mul::*;
use vstd::arithmetic::power::*;
use vstd::arithmetic::power2::*;
use vstd::prelude::*;

use super::Config;
use crate::bits;
use crate::config;

verus! {

// ---------------------------------------------------------------
// Powers
// ---------------------------------------------------------------

/// Powers keep the order of their bases.
proof fn lemma_pow_monotone(a: nat, b: nat, e: nat)
    requires
        a <= b,
    ensures
        0 <= pow(a as int, e) <= pow(b as int, e),
    decreases e,
{
    reveal(pow);
    if e > 0 {
        lemma_pow_monotone(a, b, (e - 1) as nat);
        lemma_mul_upper_bound(
            a as int,
            b as int,
            pow(a as int, (e - 1) as nat),
            pow(b as int, (e - 1) as nat),
        );
        lemma_mul_nonnegative(a as int, pow(a as int, (e - 1) as nat));
    }
}

/// Powers keep the strict order of their bases.
proof fn lemma_pow_strict(a: nat, b: nat, e: nat)
    requires
        a < b,
        e > 0,
    ensures
        pow(a as int, e) < pow(b as int, e),
    decreases e,
{
    reveal(pow);
    lemma_pow_monotone(a, b, (e - 1) as nat);
    lemma_pow_positive(b as int, (e - 1) as nat);
    let (p, q) = (pow(a as int, (e - 1) as nat), pow(b as int, (e - 1) as nat));
    assert(a * p < b * q) by (nonlinear_arith)
        requires
            0 <= a < b,
            0 <= p <= q,
            q > 0,
    ;
}

/// `(x · 2^a)^e = x^e · 2^(a·e)`.
proof fn lemma_pow_scaled(x: nat, a: nat, e: nat)
    ensures
        pow((x * pow2(a)) as int, e) == pow(x as int, e) * pow2(a * e),
{
    lemma_pow_distributes(x as int, pow2(a) as int, e);
    lemma_pow2(a);
    lemma_pow2(a * e);
    lemma_pow_multiplies(2, a, e);
}

// ---------------------------------------------------------------
// The digits of a logarithm
// ---------------------------------------------------------------

/// The digits never overstate: `2^fraction(y) <= (y / 2^60)^(2^k)`.
proof fn lemma_fraction_below(y: nat, k: nat)
    requires
        y >= config::ONE,
        y < 2 * config::ONE,
    ensures
        pow2(config::fraction(y, k)) * pow(config::ONE as int, pow2(k)) <= pow(
            y as int,
            pow2(k),
        ),
    decreases k,
{
    lemma2_to64();
    let c = config::ONE as nat;
    if k == 0 {
        lemma_pow1(c as int);
        lemma_pow1(y as int);
    } else {
        let h = (k - 1) as nat;
        let e = pow2(h);
        lemma_pow2_unfold(k);
        let s = config::squared(y);
        assert(s * c <= y * y && s >= c && s < 4 * c) by (nonlinear_arith)
            requires
                s == y * y / c,
                c > 0,
                c <= y < 2 * c,
        ;
        let carry = s >= 2 * c;
        let z = if carry {
            s / 2
        } else {
            s
        };
        let f = config::fraction(z, h);
        lemma_fraction_below(z, h);
        // z^e · c^e <= (y·y)^e / 2^e or (y·y)^e
        lemma_pow_multiplies(y as int, 2, e);
        lemma_pow_multiplies(c as int, 2, e);
        lemma_pow_square(y);
        lemma_pow_square(c);
        let top = y * y;
        let scaled = if carry {
            2 * (z * c)
        } else {
            z * c
        };
        assert(scaled <= top) by (nonlinear_arith)
            requires
                s * c <= y * y,
                top == y * y,
                carry ==> 2 * z <= s && scaled == 2 * (z * c),
                !carry ==> z == s && scaled == z * c,
                c > 0,
        ;
        lemma_pow_monotone(scaled, top, e);
        lemma_pow_distributes(z as int, c as int, e);
        lemma_pow_distributes(2, (z * c) as int, e);
        lemma_pow2(e);
        lemma_pow_distributes(c as int, c as int, e);
        lemma_pow_positive(c as int, e);
        let (ce, ze) = (pow(c as int, e), pow(z as int, e));
        lemma_pow2_pos(f);
        if carry {
            lemma_pow2_adds(e, f);
            assert(pow2(e + f) * (ce * ce) <= pow2(e) * (ze * ce)) by (nonlinear_arith)
                requires
                    pow2(e + f) == pow2(e) * pow2(f),
                    pow2(f) * ce <= ze,
                    ce > 0,
                    pow2(e) >= 0,
            ;
        } else {
            assert(pow2(f) * (ce * ce) <= ze * ce) by (nonlinear_arith)
                requires
                    pow2(f) * ce <= ze,
                    ce > 0,
            ;
        }
    }
}

proof fn lemma_pow_square(x: nat)
    ensures
        pow(x as int, 2) == x * x,
{
    reveal(pow);
    assert(pow(x as int, 2) == x * pow(x as int, 1));
    assert(pow(x as int, 1) == x * pow(x as int, 0));
}

/// `(1 + 2^-60)^k` stays below two while `k` is small.
proof fn lemma_drift(k: nat)
    requires
        2 * k <= config::ONE,
    ensures
        pow(config::ONE + 1, k) * (config::ONE - k) <= pow(config::ONE as int, k + 1),
        pow(config::ONE + 1, k) <= 2 * pow(config::ONE as int, k),
    decreases k,
{
    let c = config::ONE as int;
    reveal(pow);
    if k == 0 {
        assert(pow(c, 1) == c * pow(c, 0));
    } else {
        lemma_drift((k - 1) as nat);
        let h = (k - 1) as nat;
        let (d, p) = (pow(c + 1, h), pow(c, k));
        assert(pow(c + 1, k) == (c + 1) * d);
        assert(pow(c, k + 1) == c * p);
        lemma_pow_positive(c + 1, h);
        assert(((c + 1) * d) * (c - k) <= c * p) by (nonlinear_arith)
            requires
                d * (c - h) <= p,
                h == k - 1,
                d > 0,
                c > 0,
                k >= 1,
        {
            assert((c + 1) * (c - k) <= c * (c - h));
            assert(d * ((c + 1) * (c - k)) <= d * (c * (c - h)));
            assert(d * (c * (c - h)) == c * (d * (c - h)));
            assert(c * (d * (c - h)) <= c * p);
            assert(((c + 1) * d) * (c - k) == d * ((c + 1) * (c - k)));
        }
    }
    let (dk, pk) = (pow(c + 1, k), pow(c, k));
    assert(pow(c, k + 1) == c * pk);
    lemma_pow_positive(c + 1, k);
    assert(dk <= 2 * pk) by (nonlinear_arith)
        requires
            dk * (c - k) <= c * pk,
            2 * k <= c,
            dk > 0,
            c > 0,
    {
        assert(2 * (c - k) >= c);
        assert(dk * c <= dk * (2 * (c - k)));
        assert(dk * c <= 2 * (c * pk));
        assert(c * (2 * pk - dk) >= 0);
    }
}

/// The digits understate by little: `(y / 2^60)^(2^k)` stays below
/// `2^(fraction(y) + 1)` but for one rounding per squaring and its doublings.
proof fn lemma_fraction_above(y: nat, k: nat)
    requires
        y >= config::ONE,
        y < 2 * config::ONE,
    ensures
        pow(y as int, pow2(k)) * pow(config::ONE as int, (pow2(k) - 1) as nat) < pow2(
            config::fraction(y, k) + 1,
        ) * pow(config::ONE as int, pow2(k)) * pow(config::ONE + 1, (pow2(k) - 1) as nat),
    decreases k,
{
    lemma2_to64();
    let c = config::ONE as nat;
    if k == 0 {
        lemma_pow1(c as int);
        lemma_pow1(y as int);
        lemma_pow0(c as int);
        lemma_pow0((c + 1) as int);
    } else {
        let h = (k - 1) as nat;
        let e = pow2(h);
        lemma_pow2_unfold(k);
        lemma_pow2_pos(h);
        let s = config::squared(y);
        assert(y * y < (s + 1) * c && s >= c && s < 4 * c) by (nonlinear_arith)
            requires
                s == y * y / c,
                c > 0,
                c <= y < 2 * c,
        ;
        let carry = s >= 2 * c;
        let z = if carry {
            s / 2
        } else {
            s
        };
        let two = if carry {
            2nat
        } else {
            1nat
        };
        lemma_rounding(z);
        assert(y * y <= (two * z) * (c + 1)) by (nonlinear_arith)
            requires
                y * y < (s + 1) * c,
                s + 1 <= two * (z + 1),
                (z + 1) * c <= z * (c + 1),
        {
            assert((s + 1) * c <= (two * (z + 1)) * c);
            assert((two * (z + 1)) * c == two * ((z + 1) * c));
            assert(two * ((z + 1) * c) <= two * (z * (c + 1)));
            assert(two * (z * (c + 1)) == (two * z) * (c + 1));
        }
        lemma_fraction_above(z, h);
        lemma_above_step(y, z, carry, e, config::fraction(z, h));
    }
}

/// Rounding down loses at most one part in `2^60`.
proof fn lemma_rounding(z: nat)
    requires
        z >= config::ONE,
    ensures
        (z + 1) * config::ONE <= z * (config::ONE + 1),
{
    let c = config::ONE as int;
    assert((z + 1) * c <= z * (c + 1)) by (nonlinear_arith)
        requires
            z >= c,
    ;
}

/// Adds one digit to the bound.
proof fn lemma_above_step(y: nat, z: nat, carry: bool, e: nat, f: nat)
    requires
        e > 0,
        y * y <= ((if carry {
            2int
        } else {
            1int
        }) * z) * (config::ONE + 1),
        pow(z as int, e) * pow(config::ONE as int, (e - 1) as nat) < pow2(f + 1) * pow(
            config::ONE as int,
            e,
        ) * pow(config::ONE + 1, (e - 1) as nat),
    ensures
        pow(y as int, 2 * e) * pow(config::ONE as int, (2 * e - 1) as nat) < pow2(
            (if carry {
                e + f
            } else {
                f
            }) + 1,
        ) * pow(config::ONE as int, 2 * e) * pow(config::ONE + 1, (2 * e - 1) as nat),
{
    let c = config::ONE as int;
    let d = c + 1;
    let two = if carry {
        2int
    } else {
        1int
    };
    let (yi, zi) = (y as int, z as int);
    lemma_mul_nonnegative(yi, yi);
    lemma_pow_monotone((yi * yi) as nat, ((two * zi) * d) as nat, e);
    lemma_pow_distributes(yi, yi, e);
    lemma_pow_adds(yi, e, e);
    lemma_pow_distributes(two * zi, d, e);
    lemma_pow_distributes(two, zi, e);
    let h = (e - 1) as nat;
    lemma_pow_adds(c, h, e);
    lemma_pow_adds(c, e, e);
    lemma_pow_adds(d, h, e);
    lemma_pow_positive(c, e);
    lemma_pow_positive(c, h);
    lemma_pow_positive(d, e);
    lemma_pow_positive(two, e);
    lemma_pow2(e);
    lemma_pow2_adds(e, f + 1);
    lemma1_pow(e);
    let (t, ze, de, ce, ch, dh) = (
        pow(two, e),
        pow(zi, e),
        pow(d, e),
        pow(c, e),
        pow(c, h),
        pow(d, h),
    );
    let y2 = pow(yi, 2 * e);
    let g = pow2(f + 1) as int;
    let total = pow2((if carry {
        e + f
    } else {
        f
    }) + 1) as int;
    assert(e + e == 2 * e);
    assert(y2 <= (t * ze) * de);
    assert(total == t * g);
    assert(y2 * (ch * ce) < total * (ce * ce) * (dh * de)) by (nonlinear_arith)
        requires
            y2 <= (t * ze) * de,
            total == t * g,
            ze * ch < g * ce * dh,
            t > 0,
            de > 0,
            ce > 0,
            ch > 0,
    {
        let k = t * (de * ce);
        assert(k > 0);
        assert(y2 * (ch * ce) <= ((t * ze) * de) * (ch * ce));
        assert(((t * ze) * de) * (ch * ce) == k * (ze * ch));
        assert(k * (ze * ch) < k * (g * ce * dh));
        assert(k * (g * ce * dh) == (t * g) * (ce * ce) * (dh * de));
    }
}

proof fn lemma1_pow(e: nat)
    ensures
        pow(1, e) == 1,
    decreases e,
{
    reveal(pow);
    if e > 0 {
        lemma1_pow((e - 1) as nat);
    }
}

// ---------------------------------------------------------------
// The logarithm
// ---------------------------------------------------------------

/// `2^32`, the scale of the fixed-point logarithm.
pub open spec fn scale() -> nat {
    0x100000000
}

proof fn lemma_mantissa(n: nat, m: nat)
    requires
        1 <= m <= n,
    ensures
        config::ONE <= config::mantissa(n, m) < 2 * config::ONE,
        config::mantissa(n, m) * (m * pow2(config::doublings(n, m))) <= n * config::ONE,
        (n * config::ONE) * config::ONE <= (config::mantissa(n, m) * (config::ONE + 1)) * (m
            * pow2(config::doublings(n, m))),
{
    config::lemma_doublings(n, m);
    let c = config::ONE as nat;
    let s = m * pow2(config::doublings(n, m));
    let y = config::mantissa(n, m);
    assert(c <= y < 2 * c && y * s <= n * c && n * c < (y + 1) * s) by (nonlinear_arith)
        requires
            s <= n < 2 * s,
            y == n * c / s,
            c > 0,
            s > 0,
    ;
    lemma_rounding(y);
    assert((n * c) * c <= (y * (c + 1)) * s) by (nonlinear_arith)
        requires
            n * c < (y + 1) * s,
            (y + 1) * c <= y * (c + 1),
            c > 0,
            s > 0,
    {
        assert((n * c) * c <= ((y + 1) * s) * c);
        assert(((y + 1) * s) * c == ((y + 1) * c) * s);
        assert(((y + 1) * c) * s <= (y * (c + 1)) * s);
    }
}

/// The fixed-point logarithm never overstates, and falls short of the real
/// one by less than two units in the last place:
/// `r <= 2^32 · log2(n / m) < r + 2`.
pub proof fn law_log2_bounds(n: nat, m: nat)
    requires
        1 <= m <= n,
    ensures
        pow(m as int, scale()) * pow2(config::log2_fixed(n, m)) <= pow(n as int, scale()),
        pow(n as int, scale()) < pow(m as int, scale()) * pow2(config::log2_fixed(n, m) + 2),
{
    lemma2_to64();
    let c = config::ONE as int;
    let d = c + 1;
    let e = scale();
    let k = config::doublings(n, m);
    let s = (m * pow2(k)) as int;
    let y = config::mantissa(n, m) as int;
    let f = config::fraction(y as nat, 32);
    lemma_mantissa(n, m);
    lemma_fraction_below(y as nat, 32);
    lemma_fraction_above(y as nat, 32);
    lemma_pow_scaled(m, k, e);
    lemma_pow2_adds(k * e, f);
    lemma_pow2_adds(k * e, f + 2);
    lemma_pow2_unfold(f + 2);
    let (ye, se, ne, ce, me) = (pow(y, e), pow(s, e), pow(n as int, e), pow(c, e), pow(m as int, e));
    lemma_pow_positive(c, e);
    lemma_pow_positive(s, e);
    lemma_pow2_pos(f);
    // below
    lemma_mul_nonnegative(y, s);
    lemma_pow_monotone((y * s) as nat, (n * c) as nat, e);
    lemma_pow_distributes(y, s, e);
    lemma_pow_distributes(n as int, c, e);
    let pf = pow2(f) as int;
    assert(se * pf <= ne) by (nonlinear_arith)
        requires
            ye * se <= ne * ce,
            pf * ce <= ye,
            ce > 0,
            se > 0,
    {
        assert((pf * ce) * se <= ye * se);
        assert(ce * (pf * se) <= ce * ne);
    }
    assert(me * pow2(k * e) * pf == me * pow2(k * e + f)) by (nonlinear_arith)
        requires
            pow2(k * e + f) == pow2(k * e) * pf,
    ;
    // above
    let h = (e - 1) as nat;
    lemma_pow_monotone(((n * c) * c) as nat, ((y * d) * s) as nat, e);
    lemma_pow_distributes(n * c, c, e);
    lemma_pow_distributes(y * d, s, e);
    lemma_pow_distributes(y, d, e);
    lemma_pow_adds(c, e, h);
    lemma_pow_adds(d, e, h);
    lemma_drift(e + h);
    lemma_pow_positive(d, e);
    lemma_pow_positive(c, h);
    lemma_pow_positive(d, h);
    let (de, ch, dh) = (pow(d, e), pow(c, h), pow(d, h));
    lemma_pow2_pos(f + 1);
    let g = pow2(f + 1) as int;
    assert(ne < se * (2 * g)) by (nonlinear_arith)
        requires
            (ne * ce) * ce <= (ye * de) * se,
            ye * ch < g * ce * dh,
            de * dh <= 2 * (ce * ch),
            ce > 0,
            ch > 0,
            se > 0,
            de > 0,
            dh > 0,
            g > 0,
    {
        let w = de * se;
        assert(w > 0);
        assert(((ne * ce) * ce) * ch <= ((ye * de) * se) * ch);
        assert(((ye * de) * se) * ch == w * (ye * ch));
        assert(w * (ye * ch) < w * (g * ce * dh));
        assert(w * (g * ce * dh) == (se * g * ce) * (de * dh));
        assert((se * g * ce) * (de * dh) <= (se * g * ce) * (2 * (ce * ch)));
        let v = ce * (ce * ch);
        assert(v > 0);
        assert(((ne * ce) * ce) * ch == v * ne);
        assert((se * g * ce) * (2 * (ce * ch)) == v * (se * (2 * g)));
        assert(v * ne < v * (se * (2 * g)));
    }
    assert(me * pow2(k * e) * pow2(f + 2) == me * pow2(k * e + (f + 2))) by (nonlinear_arith)
        requires
            pow2(k * e + (f + 2)) == pow2(k * e) * pow2(f + 2),
    ;
    assert(config::log2_fixed(n, m) == k * e + f);
}

// ---------------------------------------------------------------
// The estimates
// ---------------------------------------------------------------

/// The estimated bits hold: a check that passes with probability `msg / code`
/// passes `queries` times with probability at most `2^-bits`. While
/// `2 · queries <= 2^32`, the estimate is less than two bits short.
pub proof fn law_proximity_bits(queries: nat, msg: nat, code: nat)
    requires
        1 <= msg < code,
    ensures
        ({
            let b = config::proximity_bits(queries, msg, code);
            &&& pow(msg as int, queries) * pow2(b) <= pow(code as int, queries)
            &&& 2 * queries <= scale() ==> pow(code as int, queries) < pow(
                msg as int,
                queries,
            ) * pow2(b + 2)
        }),
{
    let e = scale();
    let r = config::log2_fixed(code, msg);
    let b = config::proximity_bits(queries, msg, code);
    law_log2_bounds(code, msg);
    let (mq, nq) = (pow(msg as int, queries), pow(code as int, queries));
    lemma_pow_positive(msg as int, queries);
    lemma_pow_positive(code as int, queries);
    lemma_pow_multiplies(msg as int, queries, e);
    lemma_pow_multiplies(msg as int, e, queries);
    lemma_pow_multiplies(code as int, queries, e);
    lemma_pow_multiplies(code as int, e, queries);
    assert(queries * e == e * queries) by (nonlinear_arith);
    let me = pow(msg as int, e);
    let ne = pow(code as int, e);
    lemma_pow_positive(msg as int, e);
    lemma_pow_positive(code as int, e);
    assert(b * e <= r * queries && r * queries < (b + 1) * e) by (nonlinear_arith)
        requires
            b == queries * r / e,
            e > 0,
    ;
    // (msg^q · 2^b)^e <= (code^q)^e
    lemma_pow2_pos(r);
    lemma_pow_monotone((me * pow2(r)) as nat, ne as nat, queries);
    lemma_pow_scaled(me as nat, r, queries);
    lemma_pow_scaled(mq as nat, b, e);
    bits::lemma_pow2_monotone(b * e, r * queries);
    lemma_pow_positive(mq, e);
    lemma_mul_inequality(pow2(b * e) as int, pow2(r * queries) as int, pow(mq, e));
    let low = (mq * pow2(b)) as nat;
    if low > nq {
        lemma_pow_strict(nq as nat, low, e);
    }
    if 2 * queries <= e {
        let high = (mq * pow2(b + 2)) as nat;
        lemma_pow_scaled(mq as nat, b + 2, e);
        lemma_pow_scaled(me as nat, r + 2, queries);
        lemma_pow_monotone(ne as nat, (me * pow2(r + 2)) as nat, queries);
        assert((r + 2) * queries < (b + 2) * e) by (nonlinear_arith)
            requires
                r * queries < (b + 1) * e,
                2 * queries <= e,
        ;
        bits::lemma_pow2_monotone((r + 2) * queries, (b + 2) * e);
        lemma_pow2_pos((r + 2) * queries);
        assert(pow(mq, e) * pow2((r + 2) * queries) < pow(mq, e) * pow2((b + 2) * e))
            by (nonlinear_arith)
            requires
                pow(mq, e) > 0,
                pow2((r + 2) * queries) > 0,
                2 * pow2((r + 2) * queries) <= pow2((b + 2) * e),
        ;
        if nq >= high {
            lemma_pow_monotone(high, nq as nat, e);
        }
    }
}

/// An accepted configuration has the security that it asks for, up to the
/// field size: a word that is far from the code passes every query with
/// probability at most `2^-min_security_bits`.
pub proof fn law_accepted_is_secure(cfg: Config, field_bits: usize, grid_cols: nat)
    requires
        cfg.fits(grid_cols),
        cfg.fault(field_bits, grid_cols) is None,
        cfg.min_security_bits > 0,
        config::proximity_bits(
            cfg.num_queries as nat,
            cfg.support(grid_cols) + grid_cols,
            cfg.width(grid_cols),
        ) <= usize::MAX,
    ensures
        cfg.min_security_bits <= field_bits,
        cfg.num_queries <= cfg.support(grid_cols),
        pow((cfg.support(grid_cols) + grid_cols) as int, cfg.num_queries as nat) * pow2(
            cfg.min_security_bits as nat,
        ) <= pow(cfg.width(grid_cols) as int, cfg.num_queries as nat),
{
    let q = cfg.num_queries as nat;
    let msg = cfg.support(grid_cols) + grid_cols;
    let code = cfg.width(grid_cols);
    let b = config::proximity_bits(q, msg, code);
    if msg == 0 {
        assert(grid_cols * cfg.inv_rate == 0) by (nonlinear_arith)
            requires
                grid_cols == 0,
        ;
    }
    law_proximity_bits(q, msg, code);
    bits::lemma_pow2_monotone(cfg.min_security_bits as nat, b);
    lemma_pow_positive(msg as int, q);
    lemma_mul_inequality(
        pow2(cfg.min_security_bits as nat) as int,
        pow2(b) as int,
        pow(msg as int, q),
    );
    lemma_mul_is_commutative(pow(msg as int, q), pow2(b) as int);
    lemma_mul_is_commutative(pow(msg as int, q), pow2(cfg.min_security_bits as nat) as int);
}

/// Every accepted geometry leaves the code a distance of at least half its
/// width less the fractional support, keeps the support within the grid, and
/// has a width that is a power of two where the grid is one.
pub proof fn law_accepted_geometry(cfg: Config, grid_cols: nat)
    requires
        cfg.fits(grid_cols),
        cfg.rate_ok(),
    ensures
        cfg.support(grid_cols) <= grid_cols,
        cfg.support(grid_cols) + grid_cols <= cfg.width(grid_cols),
        !cfg.fractional(grid_cols) ==> 2 * (cfg.support(grid_cols) + grid_cols) <= cfg.width(
            grid_cols,
        ),
        !cfg.fractional(grid_cols) && cfg.inv_rate == 2 ==> 2 * (cfg.support(grid_cols)
            + grid_cols) == cfg.width(grid_cols),
        bits::is_power_of_two(grid_cols) ==> bits::is_power_of_two(cfg.width(grid_cols)),
{
    let r = cfg.inv_rate as nat;
    assert(grid_cols * r >= 2 * grid_cols) by (nonlinear_arith)
        requires
            r >= 2,
    ;
    assert(r == 2 ==> grid_cols * r == 2 * grid_cols) by (nonlinear_arith);
    if bits::is_power_of_two(grid_cols) {
        let a = choose|a: nat| grid_cols == #[trigger] pow2(a);
        let b = choose|b: nat| r == #[trigger] pow2(b);
        lemma_pow2_adds(a, b);
        lemma_pow2_unfold(a + b + 1);
        assert(grid_cols * r == pow2(a + b));
        assert(grid_cols * r * 2 == pow2(a + b + 1));
    }
}

/// Which geometry is chosen. The support asked for, on a code of the asked
/// rate, where it is no longer than the grid and the test then gives 110 bits;
/// where it is not chosen, the support is as long as the grid on a code of
/// half the rate, and either the support asked for was too long or the test
/// would have given less.
pub proof fn law_geometry_choice(cfg: Config, grid_cols: nat)
    requires
        cfg.fits(grid_cols),
        config::proximity_bits(
            cfg.num_queries as nat,
            cfg.ldt_support_size as nat + grid_cols,
            grid_cols * cfg.inv_rate as nat,
        ) <= usize::MAX,
        2 * cfg.num_queries <= scale(),
    ensures
        ({
            let (s, q) = (cfg.ldt_support_size as nat, cfg.num_queries as nat);
            let (msg, code) = (s + grid_cols, grid_cols * cfg.inv_rate as nat);
            if cfg.support(grid_cols) == s && cfg.width(grid_cols) == code && code > 0 {
                &&& s <= grid_cols
                &&& pow(msg as int, q) * pow2(110) <= pow(code as int, q)
            } else {
                &&& cfg.support(grid_cols) == grid_cols
                &&& cfg.width(grid_cols) == 2 * code
                &&& s > grid_cols || msg >= code || pow(code as int, q) < pow(msg as int, q)
                    * pow2(111)
            }
        }),
{
    let (s, q) = (cfg.ldt_support_size as nat, cfg.num_queries as nat);
    let (msg, code) = (s + grid_cols, grid_cols * cfg.inv_rate as nat);
    let b = config::proximity_bits(q, msg, code);
    if 1 <= msg < code {
        law_proximity_bits(q, msg, code);
        lemma_pow_positive(msg as int, q);
        bits::lemma_pow2_monotone(110, b);
        bits::lemma_pow2_monotone(b + 2, 111);
        let m = pow(msg as int, q);
        if b >= 110 {
            assert(m * pow2(110) <= m * pow2(b)) by (nonlinear_arith)
                requires
                    m >= 0,
                    pow2(110) <= pow2(b),
            ;
        } else {
            assert(m * pow2(b + 2) <= m * pow2(111)) by (nonlinear_arith)
                requires
                    m >= 0,
                    pow2(b + 2) <= pow2(111),
            ;
        }
    }
    if msg == 0 {
        assert(code == 0) by (nonlinear_arith)
            requires
                code == grid_cols * cfg.inv_rate,
                grid_cols == 0,
        ;
    }
}

/// A configuration that is rejected for its security does fall short: the
/// field is smaller than the bits asked for, or the test gives at most one
/// bit more than a bound below them.
pub proof fn law_rejected_is_insecure(cfg: Config, field_bits: usize, grid_cols: nat)
    requires
        cfg.fits(grid_cols),
        cfg.fault(field_bits, grid_cols) matches Some(config::Error::SecurityTooLow { .. }),
        config::proximity_bits(
            cfg.num_queries as nat,
            cfg.support(grid_cols) + grid_cols,
            cfg.width(grid_cols),
        ) <= usize::MAX,
        2 * cfg.num_queries <= scale(),
    ensures
        ({
            let (msg, code) = (cfg.support(grid_cols) + grid_cols, cfg.width(grid_cols));
            let q = cfg.num_queries as nat;
            ||| field_bits < cfg.min_security_bits
            ||| msg >= code
            ||| pow(code as int, q) < pow(msg as int, q) * pow2((cfg.min_security_bits + 1) as nat)
        }),
{
    let (msg, code) = (cfg.support(grid_cols) + grid_cols, cfg.width(grid_cols));
    let q = cfg.num_queries as nat;
    let b = config::proximity_bits(q, msg, code);
    if 1 <= msg < code {
        law_proximity_bits(q, msg, code);
        lemma_pow_positive(msg as int, q);
        let top = (cfg.min_security_bits + 1) as nat;
        bits::lemma_pow2_monotone(b + 2, top);
        let m = pow(msg as int, q);
        if b < cfg.min_security_bits {
            assert(m * pow2(b + 2) <= m * pow2(top)) by (nonlinear_arith)
                requires
                    m >= 0,
                    pow2(b + 2) <= pow2(top),
            ;
        }
    }
    if msg == 0 {
        assert(grid_cols * cfg.inv_rate == 0) by (nonlinear_arith)
            requires
                grid_cols == 0,
        ;
    }
}

} // verus!
