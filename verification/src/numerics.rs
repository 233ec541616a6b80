//! Fixed-point scale, bounds, integer square root and summation helpers.

use vstd::prelude::*;

verus! {

/// Number of fixed-point quanta in one whole token unit.  Every amount,
/// reserve, radius, plane constant and percentage in this crate is an
/// integer count of millionths of a token.
pub const SCALE: u64 = 1_000_000;

/// Largest reserve, deposit or trade amount a pool accepts (one million
/// whole tokens, in quanta).  Keeps every intermediate product within
/// `i128`/`u128` range.
pub const AMOUNT_LIMIT: u64 = 1_000_000_000_000;

/// Largest number of tokens a single pool may track.
pub const MAX_TOKENS: usize = 32;

/// Upper bound on any solved radius.  For `n >= 2` the positive root is at
/// most `2 * sum / (n - 1) <= 4 * AMOUNT_LIMIT`, and for `n == 1` the radius
/// equals the lone reserve.
pub const RADIUS_LIMIT: u64 = 4_000_000_000_000;

/// Largest number of liquidity bands one aggregator may hold.
pub const MAX_TICKS: usize = 65_536;

/// Cap on the total of all liquidity-provider shares within one band.
pub const SHARES_LIMIT: u64 = 1_000_000_000_000_000_000;

/// Absolute value of a mathematical integer.
pub open spec fn abs_of(x: int) -> int {
    if x < 0 {
        -x
    } else {
        x
    }
}

/// Quotient of `n` by `d` rounded toward zero, as hardware signed division
/// rounds.
pub open spec fn div_trunc(n: int, d: int) -> int
    recommends
        d != 0,
{
    if (n < 0) != (d < 0) {
        -(abs_of(n) / abs_of(d))
    } else {
        abs_of(n) / abs_of(d)
    }
}

/// The integer square root: the greatest `r` with `r * r <= x`.
pub open spec fn sqrt_floor(x: int) -> int {
    choose|r: int| 0 <= r && #[trigger] (r * r) <= x && x < (r + 1) * (r + 1)
}

/// An integer square root exists for every non-negative integer.
proof fn lemma_sqrt_exists(x: int)
    requires
        0 <= x,
    ensures
        exists|r: int| 0 <= r && #[trigger] (r * r) <= x && x < (r + 1) * (r + 1),
    decreases x,
{
    if x == 0 {
        let w: int = 0;
        assert(w * w == 0 && (w + 1) * (w + 1) == 1) by (nonlinear_arith)
            requires
                w == 0,
        ;
        assert(0 <= w && w * w <= x && x < (w + 1) * (w + 1));
    } else {
        lemma_sqrt_exists(x - 1);
        let p = choose|r: int| 0 <= r && #[trigger] (r * r) <= x - 1 && x - 1 < (r + 1) * (r + 1);
        if (p + 1) * (p + 1) <= x {
            // x - 1 < (p + 1)^2 <= x forces x == (p + 1)^2.
            assert(x == (p + 1) * (p + 1));
            assert(x < (p + 2) * (p + 2)) by (nonlinear_arith)
                requires
                    0 <= p,
                    x == (p + 1) * (p + 1),
            ;
            assert(0 <= p + 1 && (p + 1) * (p + 1) <= x && x < (p + 2) * (p + 2));
        } else {
            assert(0 <= p && p * p <= x && x < (p + 1) * (p + 1));
        }
    }
}

/// Any witness of the square-root property equals `sqrt_floor`.
pub proof fn lemma_sqrt_floor_from_witness(x: int, w: int)
    requires
        0 <= w,
        w * w <= x,
        x < (w + 1) * (w + 1),
    ensures
        sqrt_floor(x) == w,
{
    assert(exists|r: int| 0 <= r && #[trigger] (r * r) <= x && x < (r + 1) * (r + 1));
    let r = sqrt_floor(x);
    assert(0 <= r && r * r <= x && x < (r + 1) * (r + 1));
    if r < w {
        assert((r + 1) * (r + 1) <= w * w) by (nonlinear_arith)
            requires
                0 <= r,
                r < w,
        ;
        assert(x < (r + 1) * (r + 1) && (r + 1) * (r + 1) <= w * w && w * w <= x);
    }
    if w < r {
        assert((w + 1) * (w + 1) <= r * r) by (nonlinear_arith)
            requires
                0 <= w,
                w < r,
        ;
        assert(x < (w + 1) * (w + 1) && (w + 1) * (w + 1) <= r * r && r * r <= x);
    }
}

/// The defining properties of `sqrt_floor` on non-negative input.
pub proof fn lemma_sqrt_floor_props(x: int)
    requires
        0 <= x,
    ensures
        0 <= sqrt_floor(x),
        sqrt_floor(x) * sqrt_floor(x) <= x,
        x < (sqrt_floor(x) + 1) * (sqrt_floor(x) + 1),
{
    lemma_sqrt_exists(x);
    let r = sqrt_floor(x);
    assert(0 <= r && r * r <= x && x < (r + 1) * (r + 1));
}

/// If `x <= b * b` then the square root of `x` is at most `b`.
pub proof fn lemma_sqrt_floor_le(x: int, b: int)
    requires
        0 <= x,
        0 <= b,
        x <= b * b,
    ensures
        sqrt_floor(x) <= b,
{
    lemma_sqrt_floor_props(x);
    let r = sqrt_floor(x);
    if b < r {
        assert((b + 1) * (b + 1) <= r * r) by (nonlinear_arith)
            requires
                0 <= b,
                b < r,
        ;
        assert(b * b < (b + 1) * (b + 1)) by (nonlinear_arith)
            requires
                0 <= b,
        ;
        assert(x <= b * b && b * b < (b + 1) * (b + 1) && (b + 1) * (b + 1) <= r * r && r * r
            <= x);
    }
}

/// Integer square root by binary search.
pub fn isqrt(x: u128) -> (r: u128)
    ensures
        r * r <= x,
        x < (r + 1) * (r + 1),
        r == sqrt_floor(x as int),
{
    let mut lo: u128 = 0;
    let mut hi: u128 = if x < 0xFFFF_FFFF_FFFF_FFFF {
        x
    } else {
        0xFFFF_FFFF_FFFF_FFFF
    };
    proof {
        if x < 0xFFFF_FFFF_FFFF_FFFF {
            assert(x < (x + 1) * (x + 1)) by (nonlinear_arith)
                requires
                    0 <= x,
            ;
        } else {
            assert(x < (0xFFFF_FFFF_FFFF_FFFFu128 + 1) * (0xFFFF_FFFF_FFFF_FFFFu128 + 1));
        }
    }
    while lo < hi
        invariant
            lo <= hi,
            hi <= 0xFFFF_FFFF_FFFF_FFFF,
            lo * lo <= x,
            x < (hi + 1) * (hi + 1),
        decreases hi - lo,
    {
        let mid = lo + (hi - lo + 1) / 2;
        assert(lo < mid && mid <= hi);
        assert(mid * mid <= 0xFFFF_FFFF_FFFF_FFFFu128 * 0xFFFF_FFFF_FFFF_FFFFu128)
            by (nonlinear_arith)
            requires
                mid <= 0xFFFF_FFFF_FFFF_FFFFu128,
        ;
        if mid * mid <= x {
            lo = mid;
        } else {
            hi = mid - 1;
        }
    }
    proof {
        lemma_sqrt_floor_from_witness(x as int, lo as int);
    }
    lo
}

/// Sum of a sequence of amounts.
pub open spec fn sum_of(s: Seq<u64>) -> int
    decreases s.len(),
{
    if s.len() == 0 {
        0
    } else {
        sum_of(s.drop_last()) + s.last()
    }
}

/// Sum of the squares of a sequence of amounts.
pub open spec fn sum_sq_of(s: Seq<u64>) -> int
    decreases s.len(),
{
    if s.len() == 0 {
        0
    } else {
        sum_sq_of(s.drop_last()) + s.last() * s.last()
    }
}

/// Extending a prefix by one element adds that element to its sum.
pub proof fn lemma_sum_take_succ(s: Seq<u64>, i: int)
    requires
        0 <= i < s.len(),
    ensures
        sum_of(s.take(i + 1)) == sum_of(s.take(i)) + s[i],
        sum_sq_of(s.take(i + 1)) == sum_sq_of(s.take(i)) + s[i] * s[i],
{
    assert(s.take(i + 1).drop_last() =~= s.take(i));
    assert(s.take(i + 1).last() == s[i]);
}

/// The whole sequence is its own full prefix.
pub proof fn lemma_take_full(s: Seq<u64>)
    ensures
        sum_of(s.take(s.len() as int)) == sum_of(s),
        sum_sq_of(s.take(s.len() as int)) == sum_sq_of(s),
{
    assert(s.take(s.len() as int) =~= s);
}

/// Sums of bounded amounts are non-negative and bounded by length times bound.
pub proof fn lemma_sum_bounds(s: Seq<u64>, m: int)
    requires
        forall|k: int| 0 <= k < s.len() ==> s[k] <= m,
        0 <= m,
    ensures
        0 <= sum_of(s) <= s.len() * m,
        0 <= sum_sq_of(s) <= s.len() * (m * m),
    decreases s.len(),
{
    if s.len() == 0 {
    } else {
        let p = s.drop_last();
        assert(forall|k: int| 0 <= k < p.len() ==> p[k] <= m);
        lemma_sum_bounds(p, m);
        assert(s.last() * s.last() <= m * m) by (nonlinear_arith)
            requires
                0 <= s.last() <= m,
        ;
        assert(p.len() * m + m == s.len() * m) by (nonlinear_arith)
            requires
                p.len() + 1 == s.len(),
        ;
        assert(p.len() * (m * m) + m * m == s.len() * (m * m)) by (nonlinear_arith)
            requires
                p.len() + 1 == s.len(),
        ;
    }
}

/// Updating one element changes the sums by the difference at that position.
pub proof fn lemma_sum_update(s: Seq<u64>, i: int, v: u64)
    requires
        0 <= i < s.len(),
    ensures
        sum_of(s.update(i, v)) == sum_of(s) - s[i] + v,
        sum_sq_of(s.update(i, v)) == sum_sq_of(s) - s[i] * s[i] + v * v,
    decreases s.len(),
{
    let t = s.update(i, v);
    if i == s.len() - 1 {
        assert(t.drop_last() =~= s.drop_last());
        assert(t.last() == v);
    } else {
        assert(t.drop_last() =~= s.drop_last().update(i, v));
        assert(t.last() == s.last());
        lemma_sum_update(s.drop_last(), i, v);
    }
}

/// Every element of a sequence of amounts is at most the whole sum.
pub proof fn lemma_sum_element_bound(s: Seq<u64>, i: int)
    requires
        0 <= i < s.len(),
    ensures
        0 <= sum_of(s),
        s[i] <= sum_of(s),
    decreases s.len(),
{
    lemma_sum_bounds(s.drop_last(), u64::MAX as int);
    if i == s.len() - 1 {
    } else {
        lemma_sum_element_bound(s.drop_last(), i);
    }
}

/// Removing one element subtracts it from the sum.
pub proof fn lemma_sum_remove(s: Seq<u64>, i: int)
    requires
        0 <= i < s.len(),
    ensures
        sum_of(s.remove(i)) == sum_of(s) - s[i],
    decreases s.len(),
{
    let t = s.remove(i);
    if i == s.len() - 1 {
        assert(t =~= s.drop_last());
    } else {
        assert(t.drop_last() =~= s.drop_last().remove(i));
        assert(t.last() == s.last());
        lemma_sum_remove(s.drop_last(), i);
    }
}

/// A prefix sum of amounts never exceeds the whole sum.
pub proof fn lemma_sum_take_le(s: Seq<u64>, i: int)
    requires
        0 <= i <= s.len(),
    ensures
        0 <= sum_of(s.take(i)) <= sum_of(s),
    decreases s.len(),
{
    lemma_sum_bounds(s.take(i), u64::MAX as int);
    lemma_sum_bounds(s, u64::MAX as int);
    if i == s.len() {
        assert(s.take(i) =~= s);
    } else {
        assert(s.drop_last().take(i) =~= s.take(i));
        lemma_sum_take_le(s.drop_last(), i);
    }
}

/// Sum of the amounts in a vector, exact in `u128`.
pub fn sum_vec(v: &Vec<u64>) -> (s: u128)
    requires
        v@.len() <= MAX_TOKENS,
        forall|k: int| 0 <= k < v@.len() ==> v@[k] <= AMOUNT_LIMIT,
    ensures
        s == sum_of(v@),
{
    let mut acc: u128 = 0;
    let mut i: usize = 0;
    proof {
        lemma_sum_bounds(v@, AMOUNT_LIMIT as int);
    }
    while i < v.len()
        invariant
            i <= v@.len(),
            v@.len() <= MAX_TOKENS,
            forall|k: int| 0 <= k < v@.len() ==> v@[k] <= AMOUNT_LIMIT,
            acc == sum_of(v@.take(i as int)),
            acc <= i * (AMOUNT_LIMIT as int),
        decreases v@.len() - i,
    {
        proof {
            lemma_sum_take_succ(v@, i as int);
        }
        acc = acc + (v[i] as u128);
        i = i + 1;
    }
    proof {
        lemma_take_full(v@);
    }
    acc
}

/// Sum of the squared amounts in a vector, exact in `u128`.
pub fn sum_sq_vec(v: &Vec<u64>) -> (s: u128)
    requires
        v@.len() <= MAX_TOKENS,
        forall|k: int| 0 <= k < v@.len() ==> v@[k] <= AMOUNT_LIMIT,
    ensures
        s == sum_sq_of(v@),
{
    let mut acc: u128 = 0;
    let mut i: usize = 0;
    while i < v.len()
        invariant
            i <= v@.len(),
            v@.len() <= MAX_TOKENS,
            forall|k: int| 0 <= k < v@.len() ==> v@[k] <= AMOUNT_LIMIT,
            acc == sum_sq_of(v@.take(i as int)),
            acc <= i * 1_000_000_000_000_000_000_000_000,
        decreases v@.len() - i,
    {
        proof {
            lemma_sum_take_succ(v@, i as int);
            assert((v@[i as int] as int) * (v@[i as int] as int)
                <= 1_000_000_000_000_000_000_000_000) by (nonlinear_arith)
                requires
                    0 <= v@[i as int] <= 1_000_000_000_000,
            ;
        }
        acc = acc + (v[i] as u128) * (v[i] as u128);
        i = i + 1;
    }
    proof {
        lemma_take_full(v@);
    }
    acc
}

/// Quotient rounded toward zero, computed on magnitudes.
pub fn div_trunc_i128(n: i128, d: i128) -> (q: i128)
    requires
        d != 0,
        n > i128::MIN,
        d > i128::MIN,
    ensures
        q == div_trunc(n as int, d as int),
        abs_of(q as int) <= abs_of(n as int),
{
    let na: u128 = if n < 0 {
        (-n) as u128
    } else {
        n as u128
    };
    let da: u128 = if d < 0 {
        (-d) as u128
    } else {
        d as u128
    };
    let qa: u128 = na / da;
    assert(qa <= na) by (nonlinear_arith)
        requires
            da >= 1,
            qa == na / da,
    ;
    if (n < 0) != (d < 0) {
        -(qa as i128)
    } else {
        qa as i128
    }
}

} // verus!
