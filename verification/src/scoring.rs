//! The length penalty of the easiness score, in whole numbers.
//!
//! A sentence of `n` words whose words have the average frequency `avg` is
//! scored `round(avg / sqrt(n))`. The square root is never taken: the score
//! `s` is the whole number with `s - 1/2 <= avg / sqrt(n) < s + 1/2`, which
//! squares to `(2s - 1)^2 * n <= 4 * avg^2 < (2s + 1)^2 * n`.

use vstd::prelude::*;

verus! {

/// `s` is `avg / sqrt(n)` rounded to the nearest whole number, halves upward.
pub open spec fn is_rounded_ratio(avg: nat, n: nat, s: nat) -> bool {
    &&& 4 * avg * avg < (2 * s + 1) * (2 * s + 1) * n
    &&& s > 0 ==> (2 * s - 1) * (2 * s - 1) * n <= 4 * avg * avg
}

/// `avg / sqrt(n)` rounded to the nearest whole number, halves upward.
pub open spec fn rounded_ratio(avg: nat, n: nat) -> nat {
    choose|s: nat| is_rounded_ratio(avg, n, s)
}

/// At most one number is the rounded ratio of `avg` and `n`.
pub proof fn lemma_rounded_ratio_unique(avg: nat, n: nat, s1: nat, s2: nat)
    requires
        n > 0,
        is_rounded_ratio(avg, n, s1),
        is_rounded_ratio(avg, n, s2),
    ensures
        s1 == s2,
{
    if s1 < s2 {
        lemma_odd_squares_ordered(s1, s2, n);
    } else if s2 < s1 {
        lemma_odd_squares_ordered(s2, s1, n);
    }
}

proof fn lemma_odd_squares_ordered(low: nat, high: nat, n: nat)
    requires
        low < high,
        n > 0,
    ensures
        (2 * low + 1) * (2 * low + 1) * n <= (2 * high - 1) * (2 * high - 1) * n,
{
    let a = 2 * low + 1;
    let b = 2 * high - 1;
    assert(0 < a <= b);
    assert(a * a <= b * b) by (nonlinear_arith)
        requires
            0 < a <= b,
    ;
    assert(a * a * n <= b * b * n) by (nonlinear_arith)
        requires
            a * a <= b * b,
            n > 0,
    ;
}

/// A number that meets the two bounds is the rounded ratio.
pub proof fn lemma_rounded_ratio_is(avg: nat, n: nat, s: nat)
    requires
        n > 0,
        is_rounded_ratio(avg, n, s),
    ensures
        rounded_ratio(avg, n) == s,
{
    lemma_rounded_ratio_unique(avg, n, s, rounded_ratio(avg, n));
}

/// The rounded ratio never exceeds the average.
pub proof fn lemma_rounded_ratio_bounded(avg: nat, n: nat, s: nat)
    requires
        n > 0,
        is_rounded_ratio(avg, n, s),
    ensures
        s <= avg,
{
    if s > avg {
        let b = 2 * s - 1;
        let c = 2 * avg;
        assert(c < b);
        assert(c * c < b * b) by (nonlinear_arith)
            requires
                0 <= c < b,
        ;
        assert(b * b <= b * b * n) by (nonlinear_arith)
            requires
                n >= 1,
                b * b >= 0,
        ;
        assert(c * c == 4 * avg * avg) by (nonlinear_arith)
            requires
                c == 2 * avg,
        ;
    }
}

/// The whole part of the square root of `x`.
fn integer_sqrt(x: u128) -> (root: u128)
    ensures
        root * root <= x < (root + 1) * (root + 1),
        root < 0x1_0000_0000_0000_0000,
{
    let mut low: u128 = 0;
    let mut high: u128 = 0x1_0000_0000_0000_0000;
    assert(x < high * high) by (nonlinear_arith)
        requires
            high == 0x1_0000_0000_0000_0000,
            x <= u128::MAX,
    ;
    while high - low > 1
        invariant
            low < high <= 0x1_0000_0000_0000_0000,
            low * low <= x < high * high,
        decreases high - low,
    {
        let mid = low + (high - low) / 2;
        assert(mid * mid <= u128::MAX) by (nonlinear_arith)
            requires
                0 <= mid < 0x1_0000_0000_0000_0000,
        ;
        if mid * mid <= x {
            low = mid;
        } else {
            high = mid;
        }
    }
    low
}

/// The score of a sentence of `n` words with the average word frequency
/// `avg`: `avg / sqrt(n)`, rounded to the nearest whole number.
pub fn penalized_average(avg: u64, n: usize) -> (score: u64)
    requires
        n > 0,
    ensures
        is_rounded_ratio(avg as nat, n as nat, score as nat),
        score == rounded_ratio(avg as nat, n as nat),
{
    let a: u128 = avg as u128;
    let m: u128 = n as u128;
    assert(a * a <= u128::MAX) by (nonlinear_arith)
        requires
            0 <= a < 0x1_0000_0000_0000_0000,
    ;
    let square = a * a;
    let quotient = square / m;
    let rest = square % m;
    let root = integer_sqrt(quotient);
    assert(square == quotient * m + rest) by (nonlinear_arith)
        requires
            quotient == square / m,
            rest == square % m,
            m > 0,
    ;
    let excess = quotient - root * root;
    let up = excess > root || (excess == root && 4 * rest >= m);
    let s: u128 = if up { root + 1 } else { root };
    proof {
        let (r, q, d, t, k) = (root as int, quotient as int, excess as int, rest as int, m as int);
        assert(q == r * r + d);
        assert(d <= 2 * r) by (nonlinear_arith)
            requires
                q == r * r + d,
                q < (r + 1) * (r + 1),
        ;
        assert(4 * (a * a) == 4 * (r * r) * k + 4 * d * k + 4 * t) by (nonlinear_arith)
            requires
                a * a == q * k + t,
                q == r * r + d,
        ;
        if up {
            assert(4 * d * k + 4 * t >= (4 * r + 1) * k) by (nonlinear_arith)
                requires
                    d > r || (d == r && 4 * t >= k),
                    k > 0,
                    t >= 0,
                    r >= 0,
            ;
            assert((2 * (r + 1) - 1) * (2 * (r + 1) - 1) * k == 4 * (r * r) * k + (4 * r + 1) * k)
                by (nonlinear_arith);
            assert(4 * d * k + 4 * t < (12 * r + 9) * k) by (nonlinear_arith)
                requires
                    0 <= d <= 2 * r,
                    0 <= t < k,
            ;
            assert((2 * (r + 1) + 1) * (2 * (r + 1) + 1) * k == 4 * (r * r) * k + (12 * r + 9) * k)
                by (nonlinear_arith);
        } else {
            assert(4 * d * k + 4 * t < (4 * r + 1) * k) by (nonlinear_arith)
                requires
                    d < r || (d == r && 4 * t < k),
                    0 <= d,
                    0 <= t < k,
                    r >= 0,
            ;
            assert((2 * r + 1) * (2 * r + 1) * k == 4 * (r * r) * k + (4 * r + 1) * k)
                by (nonlinear_arith);
            if r > 0 {
                assert((2 * r - 1) * (2 * r - 1) * k <= 4 * (r * r) * k) by (nonlinear_arith)
                    requires
                        r >= 1,
                        k > 0,
                ;
                assert(4 * d * k + 4 * t >= 0) by (nonlinear_arith)
                    requires
                        d >= 0,
                        k > 0,
                        t >= 0,
                ;
            }
        }
        assert(4 * avg as nat * avg as nat == 4 * (a * a)) by (nonlinear_arith)
            requires
                a == avg,
        ;
        assert(is_rounded_ratio(avg as nat, n as nat, s as nat));
        lemma_rounded_ratio_bounded(avg as nat, n as nat, s as nat);
        lemma_rounded_ratio_is(avg as nat, n as nat, s as nat);
    }
    s as u64
}

} // verus!
