//! IEEE 754 binary64 arithmetic on natural numbers, done exactly with integers.
//!
//! A nonnegative binary64 number is modelled as a pair `(sig, exp)` whose
//! value is `sig · 2^exp`; zero is `(0, 0)`. Rounding keeps 53 significant
//! bits at any exponent, as the format does in its normal range. The counts,
//! shares and percentages computed here lie in that range; a progress bar
//! for an extreme share may round a product outside it, where the format
//! would give infinity or a subnormal number, but the bar's cell count comes
//! out the same (saturated, or zero).
use vstd::prelude::*;

verus! {

/// `2^k`.
pub open spec fn p2(k: nat) -> nat
    decreases k,
{
    if k == 0 {
        1
    } else {
        2 * p2((k - 1) as nat)
    }
}

/// `2^k` is at least one.
pub proof fn lemma_p2_pos(k: nat)
    ensures
        p2(k) >= 1,
    decreases k,
{
    if k > 0 {
        lemma_p2_pos((k - 1) as nat);
    }
}

/// `2^(i + j) = 2^i · 2^j`.
pub proof fn lemma_p2_adds(i: nat, j: nat)
    ensures
        p2(i + j) == p2(i) * p2(j),
    decreases j,
{
    if j > 0 {
        lemma_p2_adds(i, (j - 1) as nat);
        assert((i + j - 1) as nat == i + (j - 1) as nat);
        assert(p2(i + j) == 2 * p2((i + j - 1) as nat));
        assert(p2(j) == 2 * p2((j - 1) as nat));
        let a = p2(i);
        let b = p2((j - 1) as nat);
        assert(a * (2 * b) == 2 * (a * b)) by (nonlinear_arith);
    } else {
        assert(p2(0) == 1);
        assert(i + j == i);
    }
}

/// Powers of two grow with the exponent.
pub proof fn lemma_p2_grows(i: nat, j: nat)
    requires
        i <= j,
    ensures
        p2(i) <= p2(j),
        i < j ==> 2 * p2(i) <= p2(j),
{
    let d = (j - i) as nat;
    lemma_p2_adds(i, d);
    lemma_p2_pos(i);
    lemma_p2_pos(d);
    if i < j {
        lemma_p2_pos((d - 1) as nat);
        assert(p2(d) == 2 * p2((d - 1) as nat));
    }
    let a = p2(i);
    let b = p2(d);
    assert(a <= a * b) by (nonlinear_arith)
        requires
            b >= 1,
            a >= 1,
    ;
    assert(i < j ==> 2 * a <= a * b) by (nonlinear_arith)
        requires
            i < j ==> b >= 2,
            a >= 1,
    ;
}

/// The powers of two that the bounds below use.
pub proof fn lemma_p2_values()
    ensures
        p2(4) == 0x10,
        p2(7) == 0x80,
        p2(8) == 0x100,
        p2(52) == 0x10_0000_0000_0000,
        p2(53) == 0x20_0000_0000_0000,
        p2(64) == 0x1_0000_0000_0000_0000,
        p2(120) == 0x100_0000_0000_0000_0000_0000_0000_0000,
        p2(128) == 0x1_0000_0000_0000_0000_0000_0000_0000_0000,
{
    reveal_with_fuel(p2, 9);
    assert(p2(4) == 0x10);
    assert(p2(7) == 0x80);
    assert(p2(8) == 0x100);
    lemma_p2_adds(8, 8);
    assert(p2(16) == 0x1_0000);
    lemma_p2_adds(16, 16);
    assert(p2(32) == 0x1_0000_0000);
    lemma_p2_adds(32, 16);
    assert(p2(48) == 0x1_0000_0000_0000);
    lemma_p2_adds(48, 4);
    assert(p2(52) == 0x10_0000_0000_0000);
    assert(p2(53) == 2 * p2(52));
    lemma_p2_adds(32, 32);
    assert(p2(64) == 0x1_0000_0000_0000_0000);
    lemma_p2_adds(64, 64);
    lemma_p2_adds(4, 52);
    assert(p2(56) == 0x100_0000_0000_0000);
    lemma_p2_adds(64, 56);
}

/// `x / y` rounded to the nearest integer, halves to the even one.
pub open spec fn round_half_even(x: nat, y: nat) -> nat {
    let q = x / y;
    let r = x % y;
    if 2 * r > y {
        q + 1
    } else if 2 * r < y {
        q
    } else if q % 2 == 0 {
        q
    } else {
        q + 1
    }
}

/// `a · 2^j / b` written as a fraction of natural numbers.
pub open spec fn frac(a: nat, b: nat, j: int) -> (nat, nat) {
    if j >= 0 {
        (a * p2(j as nat), b)
    } else {
        (a, b * p2((-j) as nat))
    }
}

/// Whether `a · 2^j / b` lies in `[2^52, 2^53)`, where the significands of
/// binary64 numbers lie.
pub open spec fn in_binade(a: nat, b: nat, j: int) -> bool {
    &&& p2(52) * frac(a, b, j).1 <= frac(a, b, j).0
    &&& frac(a, b, j).0 < p2(53) * frac(a, b, j).1
}

/// The binary64 number nearest to `a · 2^k / b`, ties to an even
/// significand: the scale `2^j` that brings the value into `[2^52, 2^53)`,
/// the scaled value rounded to an integer significand, and `k - j` as the
/// exponent. Zero for `a == 0`.
pub open spec fn round64(a: nat, b: nat, k: int) -> (nat, int) {
    if a == 0 {
        (0, 0)
    } else {
        let j = choose|j: int| in_binade(a, b, j);
        (round_half_even(frac(a, b, j).0, frac(a, b, j).1), k - j)
    }
}

/// At most one scale brings a positive value into the binade.
pub proof fn lemma_binade_unique(a: nat, b: nat, i: int, j: int)
    requires
        a > 0,
        b > 0,
        in_binade(a, b, i),
        in_binade(a, b, j),
    ensures
        i == j,
{
    if i != j {
        let (lo, hi) = if i < j {
            (i, j)
        } else {
            (j, i)
        };
        let c52 = p2(52);
        let c53 = p2(53);
        assert(c53 == 2 * c52);
        lemma_p2_pos(52);
        if lo >= 0 {
            let pl = p2(lo as nat);
            let ph = p2(hi as nat);
            lemma_p2_grows(lo as nat, hi as nat);
            assert(false) by (nonlinear_arith)
                requires
                    c52 * b <= a * pl,
                    a * ph < c53 * b,
                    2 * pl <= ph,
                    c53 == 2 * c52,
                    a > 0,
            ;
        } else if hi < 0 {
            let pl = p2((-lo) as nat);
            let ph = p2((-hi) as nat);
            lemma_p2_grows((-hi) as nat, (-lo) as nat);
            assert(false) by (nonlinear_arith)
                requires
                    c52 * (b * pl) <= a,
                    a < c53 * (b * ph),
                    2 * ph <= pl,
                    c53 == 2 * c52,
                    b > 0,
            ;
        } else {
            let pl = p2((-lo) as nat);
            let ph = p2(hi as nat);
            lemma_p2_grows(0, (-lo) as nat);
            lemma_p2_pos(hi as nat);
            assert(false) by (nonlinear_arith)
                requires
                    c52 * (b * pl) <= a,
                    a * ph < c53 * b,
                    2 <= pl,
                    1 <= ph,
                    c53 == 2 * c52,
                    b > 0,
            ;
        }
    }
}

/// `x / y` rounded to the nearest integer, halves to the even one.
pub fn round_half_even_u128(x: u128, y: u128) -> (r: u128)
    requires
        y > 0,
    ensures
        r == round_half_even(x as nat, y as nat),
{
    let q = x / y;
    let r = x % y;
    if r > y - r {
        assert(q + 1 <= x) by (nonlinear_arith)
            requires
                q == x / y,
                r == x % y,
                y > 0,
                r > y - r,
                r < y,
        ;
        q + 1
    } else if r < y - r {
        q
    } else if q % 2 == 0 {
        q
    } else {
        assert(q + 1 <= x) by (nonlinear_arith)
            requires
                q == x / y,
                r == x % y,
                y > 0,
                r == y - r,
                r < y,
        ;
        q + 1
    }
}

/// The binary64 number nearest to `a · 2^k / b`.
pub fn to_binary64(a: u128, b: u128, k: i64) -> (r: (u64, i64))
    requires
        0 < b <= 0x40_0000_0000_0000_0000u128,
        a <= 0x4000_0000_0000_0000_0000_0000_0000u128,
        -4096 <= k <= 4096,
    ensures
        (r.0 as nat, r.1 as int) == round64(a as nat, b as nat, k as int),
        a == 0 ==> r.0 == 0 && r.1 == 0,
        a > 0 ==> in_binade(a as nat, b as nat, k - r.1),
        a > 0 ==> p2(52) <= r.0,
        r.0 <= p2(53),
        a > 0 ==> k - 128 < r.1 < k + 128,
{
    if a == 0 {
        return (0, 0);
    }
    proof {
        lemma_p2_values();
    }
    let lo: u128 = 0x10_0000_0000_0000;
    let hi: u128 = 0x20_0000_0000_0000;
    let mut x: u128 = a;
    let mut y: u128 = b;
    let mut j: i64 = 0;
    assert(p2(0) == 1);
    assert(x == a * p2(j as nat)) by (nonlinear_arith)
        requires
            p2(0) == 1,
            j == 0,
            x == a,
    ;
    assert(y == b * p2((-j) as nat)) by (nonlinear_arith)
        requires
            p2(0) == 1,
            j == 0,
            y == b,
    ;
    if x < lo * y {
        while x < lo * y
            invariant
                lo == p2(52) == 0x10_0000_0000_0000,
                hi == p2(53) == 0x20_0000_0000_0000,
                p2(128) == 0x1_0000_0000_0000_0000_0000_0000_0000_0000,
                y == b,
                0 < b <= 0x40_0000_0000_0000_0000u128,
                0 < a,
                0 <= j < 128,
                x >= 1,
                x == a * p2(j as nat),
                x < hi * y,
            decreases 128 - j,
        {
            let ghost old_j = j as nat;
            x = x * 2;
            j = j + 1;
            proof {
                assert(p2(j as nat) == 2 * p2(old_j));
                assert(x == a * p2(j as nat)) by (nonlinear_arith)
                    requires
                        x == 2 * (a * p2(old_j)),
                        p2(j as nat) == 2 * p2(old_j),
                ;
                assert(p2(j as nat) <= x) by (nonlinear_arith)
                    requires
                        x == a * p2(j as nat),
                        a >= 1,
                ;
                if j >= 128 {
                    lemma_p2_grows(128, j as nat);
                }
            }
        }
    } else {
        while x >= hi * y
            invariant
                lo == p2(52) == 0x10_0000_0000_0000,
                hi == p2(53) == 0x20_0000_0000_0000,
                p2(128) == 0x1_0000_0000_0000_0000_0000_0000_0000_0000,
                x == a,
                0 < a <= 0x4000_0000_0000_0000_0000_0000_0000u128,
                0 < b,
                -128 < j <= 0,
                y >= 1,
                y == b * p2((-j) as nat),
                lo * y <= x,
            decreases x - y,
        {
            let ghost old_j = (-j) as nat;
            y = y * 2;
            j = j - 1;
            proof {
                assert(p2((-j) as nat) == 2 * p2(old_j));
                assert(y == b * p2((-j) as nat)) by (nonlinear_arith)
                    requires
                        y == 2 * (b * p2(old_j)),
                        p2((-j) as nat) == 2 * p2(old_j),
                ;
                assert(p2((-j) as nat) <= y) by (nonlinear_arith)
                    requires
                        y == b * p2((-j) as nat),
                        b >= 1,
                ;
                if j <= -128 {
                    lemma_p2_grows(128, (-j) as nat);
                }
            }
        }
    }
    assert(frac(a as nat, b as nat, j as int) == (x as nat, y as nat));
    assert(in_binade(a as nat, b as nat, j as int));
    proof {
        let jj = choose|jj: int| in_binade(a as nat, b as nat, jj);
        lemma_binade_unique(a as nat, b as nat, jj, j as int);
    }
    let sig = round_half_even_u128(x, y);
    assert(lo <= sig <= hi) by (nonlinear_arith)
        requires
            sig == round_half_even(x as nat, y as nat),
            lo * y <= x,
            x < hi * y,
            y > 0,
    {
        assert(lo <= x / y) by (nonlinear_arith)
            requires lo * y <= x, y > 0;
        assert(x / y < hi) by (nonlinear_arith)
            requires x < hi * y, y > 0;
    }
    (sig as u64, k - j)
}

/// A scale that brings `a / b` into the binade is bounded from below by
/// the sizes of `a` and `b`.
pub proof fn lemma_scale_lower(a: nat, b: nat, j: int, na: nat, nb: nat)
    requires
        a > 0,
        b > 0,
        in_binade(a, b, j),
        a <= p2(na),
        p2(nb) <= b,
    ensures
        j >= 52 + nb - na,
{
    if j < 52 + nb - na {
        let c = p2(52);
        lemma_p2_adds(52, nb);
        if j >= 0 {
            let pj = p2(j as nat);
            lemma_p2_adds(na, j as nat);
            lemma_p2_grows(na + j as nat, 52 + nb);
            let q = p2(nb);
            let pa = p2(na);
            lemma_p2_pos(j as nat);
            assert(c * q <= c * b) by (nonlinear_arith)
                requires
                    q <= b,
                    c >= 0,
            ;
            assert(a * pj <= pa * pj) by (nonlinear_arith)
                requires
                    a <= pa,
                    pj >= 0,
            ;
            assert(a * pj >= 1) by (nonlinear_arith)
                requires
                    a >= 1,
                    pj >= 1,
            ;
            assert(false);
        } else {
            let pj = p2((-j) as nat);
            lemma_p2_adds(52 + nb, (-j) as nat);
            lemma_p2_grows(na, (52 + nb - j) as nat);
            let q = p2(nb);
            assert(c * q * pj <= c * (b * pj)) by (nonlinear_arith)
                requires
                    q <= b,
                    c >= 0,
                    pj >= 0,
            ;
            assert(p2((52 + nb - j) as nat) == c * q * pj);
            assert(false);
        }
    }
}

/// A scale that brings `a / b` into the binade is bounded from above by
/// the size of `b`.
pub proof fn lemma_scale_upper(a: nat, b: nat, j: int, nb: nat)
    requires
        a > 0,
        b > 0,
        in_binade(a, b, j),
        b <= p2(nb),
    ensures
        j < 53 + nb,
{
    if j >= 53 + nb {
        let pj = p2(j as nat);
        lemma_p2_adds(53, nb);
        lemma_p2_grows(53 + nb, j as nat);
        assert(p2(53) * b <= p2(53) * p2(nb)) by (nonlinear_arith)
            requires
                b <= p2(nb),
        ;
        assert(pj <= a * pj) by (nonlinear_arith)
            requires
                a >= 1,
                pj >= 0,
        ;
        assert(false);
    }
}

/// `2^k` as a machine integer.
pub fn pow2_u128(k: u32) -> (r: u128)
    requires
        k < 128,
    ensures
        r == p2(k as nat),
{
    proof {
        lemma_p2_values();
    }
    let mut r: u128 = 1;
    let mut i: u32 = 0;
    while i < k
        invariant
            i <= k < 128,
            r == p2(i as nat),
            p2(128) == 0x1_0000_0000_0000_0000_0000_0000_0000_0000,
        decreases k - i,
    {
        proof {
            lemma_p2_grows((i + 1) as nat, 128);
            assert(p2((i + 1) as nat) == 2 * p2(i as nat));
        }
        r = r * 2;
        i = i + 1;
    }
    r
}

/// Whether the value of `x` is smaller than the value of `y`.
pub open spec fn less(x: (nat, int), y: (nat, int)) -> bool {
    frac(x.0, y.0, x.1 - y.1).0 < frac(x.0, y.0, x.1 - y.1).1
}

/// Whether `x < y` for binary64 numbers.
pub fn less_b64(x: (u64, i64), y: (u64, i64)) -> (r: bool)
    requires
        x.0 <= p2(53),
        y.0 <= p2(53),
        -4096 <= x.1 <= 4096,
        -4096 <= y.1 <= 4096,
    ensures
        r == less((x.0 as nat, x.1 as int), (y.0 as nat, y.1 as int)),
{
    proof {
        lemma_p2_values();
    }
    let d: i64 = x.1 - y.1;
    if d >= 0 {
        if x.0 == 0 {
            assert(x.0 * p2(d as nat) == 0);
            return 0 < y.0;
        }
        if d >= 64 {
            proof {
                lemma_p2_grows(64, d as nat);
                assert(x.0 * p2(d as nat) >= p2(d as nat)) by (nonlinear_arith)
                    requires
                        x.0 >= 1,
                ;
            }
            return false;
        }
        let p = pow2_u128(d as u32);
        proof {
            lemma_p2_grows(d as nat, 64);
        }
        assert(x.0 * p <= 0x20_0000_0000_0000 * 0x1_0000_0000_0000_0000) by (nonlinear_arith)
            requires
                x.0 <= 0x20_0000_0000_0000,
                p <= 0x1_0000_0000_0000_0000,
        ;
        (x.0 as u128) * p < y.0 as u128
    } else {
        if y.0 == 0 {
            assert(y.0 * p2((-d) as nat) == 0);
            return false;
        }
        if d <= -64 {
            proof {
                lemma_p2_grows(64, (-d) as nat);
                assert(y.0 * p2((-d) as nat) >= p2((-d) as nat)) by (nonlinear_arith)
                    requires
                        y.0 >= 1,
                ;
            }
            return true;
        }
        let p = pow2_u128((-d) as u32);
        proof {
            lemma_p2_grows((-d) as nat, 64);
        }
        assert(y.0 * p <= 0x20_0000_0000_0000 * 0x1_0000_0000_0000_0000) by (nonlinear_arith)
            requires
                y.0 <= 0x20_0000_0000_0000,
                p <= 0x1_0000_0000_0000_0000,
        ;
        (x.0 as u128) < (y.0 as u128) * p
    }
}

/// An integer rounds to itself.
pub proof fn lemma_round_exact(v: nat)
    ensures
        round_half_even(v, 1) == v,
{
    assert(v / 1 == v && v % 1 == 0) by (nonlinear_arith);
}

/// Less than half of `y` rounds to zero.
pub proof fn lemma_round_small(x: nat, y: nat)
    requires
        2 * x < y,
    ensures
        round_half_even(x, y) == 0,
{
    assert(x / y == 0 && x % y == x) by (nonlinear_arith)
        requires
            2 * x < y,
    ;
}

/// `c` times the value of `x`, rounded to an integer, halves to the even
/// one: for `c == 10^d`, the digits that `{:.d}` prints.
pub open spec fn scaled_round(x: (nat, int), c: nat) -> nat {
    round_half_even(frac(c * x.0, 1, x.1).0, frac(c * x.0, 1, x.1).1)
}

/// The value of `x` rounded to an integer, halves away from zero.
pub open spec fn round_half_away(x: (nat, int)) -> nat {
    (2 * frac(x.0, 1, x.1).0 + frac(x.0, 1, x.1).1) / (2 * frac(x.0, 1, x.1).1)
}

/// `x.round() as usize`: rounded half away from zero, at most `usize::MAX`.
pub fn round_to_usize(x: (u64, i64)) -> (r: usize)
    requires
        x.0 <= p2(53),
        -4096 <= x.1 <= 4096,
    ensures
        r == (if round_half_away((x.0 as nat, x.1 as int)) <= usize::MAX {
            round_half_away((x.0 as nat, x.1 as int))
        } else {
            usize::MAX as nat
        }),
{
    proof {
        lemma_p2_values();
    }
    let m: u128 = x.0 as u128;
    if x.1 >= 0 {
        if x.0 == 0 {
            proof {
                assert(frac(x.0 as nat, 1, x.1 as int) == (0nat, 1nat)) by {
                    assert(0 * p2(x.1 as nat) == 0);
                }
                lemma_half_away_int(0);
                assert(round_half_away((x.0 as nat, x.1 as int)) == 0);
            }
            return 0;
        }
        if x.1 >= 64 {
            proof {
                let w = (x.0 as nat) * p2(x.1 as nat);
                lemma_p2_grows(64, x.1 as nat);
                assert(w >= p2(x.1 as nat)) by (nonlinear_arith)
                    requires
                        w == x.0 * p2(x.1 as nat),
                        x.0 >= 1,
                ;
                lemma_half_away_int(w);
                assert(frac(x.0 as nat, 1, x.1 as int) == (w, 1nat));
                assert(round_half_away((x.0 as nat, x.1 as int)) == w);
            }
            return usize::MAX;
        }
        let p = pow2_u128(x.1 as u32);
        proof {
            lemma_p2_grows(x.1 as nat, 64);
        }
        assert(m * p <= 0x20_0000_0000_0000 * 0x1_0000_0000_0000_0000) by (nonlinear_arith)
            requires
                m <= 0x20_0000_0000_0000,
                p <= 0x1_0000_0000_0000_0000,
        ;
        let w = m * p;
        proof {
            lemma_half_away_int(w as nat);
            assert(frac(x.0 as nat, 1, x.1 as int) == (w as nat, 1nat));
            assert(round_half_away((x.0 as nat, x.1 as int)) == w);
        }
        if w > usize::MAX as u128 {
            usize::MAX
        } else {
            w as usize
        }
    } else if x.1 <= -120 {
        proof {
            let d = p2((-x.1) as nat);
            lemma_p2_grows(120, (-x.1) as nat);
            lemma_half_away_small(m as nat, d);
            assert(frac(x.0 as nat, 1, x.1 as int) == (m as nat, d));
            assert(round_half_away((x.0 as nat, x.1 as int)) == 0);
        }
        0
    } else {
        let p = pow2_u128((-x.1) as u32);
        proof {
            lemma_p2_pos((-x.1) as nat);
            lemma_p2_grows((-x.1) as nat, 120);
        }
        let f = (2 * m + p) / (2 * p);
        assert(frac(x.0 as nat, 1, x.1 as int) == (m as nat, p as nat));
        assert(round_half_away((x.0 as nat, x.1 as int)) == f);
        if f > usize::MAX as u128 {
            usize::MAX
        } else {
            f as usize
        }
    }
}

/// An integer, rounded half away from zero, is itself.
pub proof fn lemma_half_away_int(w: nat)
    ensures
        (2 * w + 1) / (2 * 1nat) == w,
{
    assert((2 * w + 1) / 2 == w) by (nonlinear_arith);
}

/// Less than half of `d` rounds half away to zero.
pub proof fn lemma_half_away_small(m: nat, d: nat)
    requires
        2 * m < d,
    ensures
        (2 * m + d) / (2 * d) == 0,
{
    assert((2 * m + d) / (2 * d) == 0) by (nonlinear_arith)
        requires
            2 * m < d,
    ;
}

/// The binary64 number nearest to `n`: `n as f64`.
pub open spec fn from_nat(n: nat) -> (nat, int) {
    round64(n, 1, 0)
}

/// The binary64 quotient of `x` by a nonzero `y`: `x / y`.
pub open spec fn div64(x: (nat, int), y: (nat, int)) -> (nat, int) {
    round64(x.0, y.0, x.1 - y.1)
}

/// The binary64 product of `x` and `y`: `x * y`.
pub open spec fn mul64(x: (nat, int), y: (nat, int)) -> (nat, int) {
    round64(x.0 * y.0, 1, x.1 + y.1)
}

/// `n as f64`.
pub fn from_u64(n: u64) -> (r: (u64, i64))
    ensures
        (r.0 as nat, r.1 as int) == from_nat(n as nat),
        r.0 <= p2(53),
        n == 0 ==> r.0 == 0 && r.1 == 0,
        n > 0 ==> p2(52) <= r.0,
        n > 0 ==> in_binade(n as nat, 1, -r.1),
        -52 <= r.1 <= 12,
{
    proof {
        lemma_p2_values();
    }
    let r = to_binary64(n as u128, 1, 0);
    if n > 0 {
        proof {
            lemma_p2_pos(0);
            lemma_scale_lower(n as nat, 1, -r.1, 64, 0);
            lemma_scale_upper(n as nat, 1, -r.1, 0);
        }
    }
    r
}

/// `x / y` for binary64 numbers, `y` not zero.
pub fn div_b64(x: (u64, i64), y: (u64, i64)) -> (r: (u64, i64))
    requires
        x.0 <= p2(53),
        0 < y.0 <= p2(53),
        -2048 <= x.1 <= 2048,
        -2048 <= y.1 <= 2048,
    ensures
        (r.0 as nat, r.1 as int) == div64((x.0 as nat, x.1 as int), (y.0 as nat, y.1 as int)),
        x.0 == 0 ==> r.0 == 0 && r.1 == 0,
        r.0 <= p2(53),
        x.0 > 0 ==> p2(52) <= r.0,
        x.0 > 0 ==> x.1 - y.1 - 128 < r.1 < x.1 - y.1 + 128,
        x.0 > 0 && p2(52) <= y.0 ==> r.1 <= x.1 - y.1 - 51,
{
    proof {
        lemma_p2_values();
    }
    let r = to_binary64(x.0 as u128, y.0 as u128, x.1 - y.1);
    if x.0 > 0 && y.0 >= 0x10_0000_0000_0000 {
        proof {
            lemma_scale_lower(x.0 as nat, y.0 as nat, x.1 - y.1 - r.1, 53, 52);
        }
    }
    r
}

/// `x * y` for binary64 numbers.
pub fn mul_b64(x: (u64, i64), y: (u64, i64)) -> (r: (u64, i64))
    requires
        x.0 <= p2(53),
        y.0 <= p2(53),
        -2048 <= x.1 <= 2048,
        -2048 <= y.1 <= 2048,
    ensures
        (r.0 as nat, r.1 as int) == mul64((x.0 as nat, x.1 as int), (y.0 as nat, y.1 as int)),
        x.0 * y.0 == 0 ==> r.0 == 0 && r.1 == 0,
        r.0 <= p2(53),
        x.0 * y.0 > 0 ==> p2(52) <= r.0,
        x.0 * y.0 > 0 ==> x.1 + y.1 - 128 < r.1 <= x.1 + y.1 + 54,
{
    proof {
        lemma_p2_values();
        lemma_p2_adds(53, 53);
    }
    assert((x.0 as int) * (y.0 as int) <= 0x20_0000_0000_0000 * 0x20_0000_0000_0000) by (nonlinear_arith)
        requires
            x.0 <= 0x20_0000_0000_0000,
            y.0 <= 0x20_0000_0000_0000,
    ;
    let a = (x.0 as u128) * (y.0 as u128);
    let r = to_binary64(a, 1, x.1 + y.1);
    if a > 0 {
        proof {
            assert(a <= p2(106));
            lemma_p2_pos(0);
            lemma_scale_lower(a as nat, 1, x.1 + y.1 - r.1, 106, 0);
        }
    }
    r
}

/// Scaling `a / b` up by powers of two from `2^t` on reaches the binade.
proof fn lemma_binade_up(a: nat, b: nat, t: nat) -> (j: int)
    requires
        a > 0,
        b > 0,
        a * p2(t) < p2(53) * b,
    ensures
        in_binade(a, b, j),
    decreases p2(53) * b - a * p2(t),
{
    assert(p2(53) == 2 * p2(52));
    if p2(52) * b <= a * p2(t) {
        t as int
    } else {
        assert(p2(t + 1) == 2 * p2(t));
        lemma_p2_pos(t);
        assert(a * p2(t + 1) == 2 * (a * p2(t))) by (nonlinear_arith)
            requires
                p2(t + 1) == 2 * p2(t),
        ;
        assert(a * p2(t) >= 1) by (nonlinear_arith)
            requires
                a >= 1,
                p2(t) >= 1,
        ;
        assert(p2(53) * b == 2 * (p2(52) * b)) by (nonlinear_arith)
            requires
                p2(53) == 2 * p2(52),
        ;
        lemma_binade_up(a, b, t + 1)
    }
}

/// Scaling `a / b` down by powers of two from `2^-t` on reaches the binade.
proof fn lemma_binade_down(a: nat, b: nat, t: nat) -> (j: int)
    requires
        a > 0,
        b > 0,
        p2(52) * (b * p2(t)) <= a,
    ensures
        in_binade(a, b, j),
    decreases a - b * p2(t),
{
    lemma_p2_pos(t);
    lemma_p2_pos(52);
    assert(p2(53) == 2 * p2(52));
    assert(b * p2(t) >= 1) by (nonlinear_arith)
        requires
            b >= 1,
            p2(t) >= 1,
    ;
    if a < p2(53) * (b * p2(t)) {
        if t == 0 {
            assert(p2(0) == 1);
            assert(a * p2(0) == a && b * p2(0) == b) by (nonlinear_arith)
                requires
                    p2(0) == 1,
            ;
        }
        -(t as int)
    } else {
        assert(p2(t + 1) == 2 * p2(t));
        assert(b * p2(t + 1) == 2 * (b * p2(t))) by (nonlinear_arith)
            requires
                p2(t + 1) == 2 * p2(t),
        ;
        assert(p2(52) * (b * p2(t + 1)) == p2(53) * (b * p2(t))) by (nonlinear_arith)
            requires
                p2(53) == 2 * p2(52),
                b * p2(t + 1) == 2 * (b * p2(t)),
        ;
        assert(b * p2(t + 1) <= a) by (nonlinear_arith)
            requires
                p2(52) >= 1,
                p2(52) * (b * p2(t + 1)) <= a,
        ;
        lemma_binade_down(a, b, t + 1)
    }
}

/// Every positive fraction has a scale that brings it into the binade.
pub proof fn lemma_binade_exists(a: nat, b: nat)
    requires
        a > 0,
        b > 0,
    ensures
        exists|j: int| in_binade(a, b, j),
{
    lemma_p2_values();
    assert(p2(0) == 1);
    let j = if a < p2(52) * b {
        lemma_binade_up(a, b, 0)
    } else {
        lemma_binade_down(a, b, 0)
    };
    assert(in_binade(a, b, j));
}

/// One as a binary64 number.
pub proof fn lemma_from_nat_one()
    ensures
        from_nat(1) == (p2(52), -52int),
{
    lemma_p2_values();
    assert(in_binade(1, 1, 52));
    lemma_binade_exists(1, 1);
    let j = choose|j: int| in_binade(1, 1, j);
    lemma_binade_unique(1, 1, j, 52);
    lemma_round_exact(p2(52));
}

/// Raising the scale of a fraction by `t` multiplies its value by `2^t`.
pub proof fn lemma_frac_shift(a: nat, b: nat, k: int, t: nat)
    ensures
        frac(a, b, k + t).0 * frac(a, b, k).1 == frac(a, b, k).0 * p2(t) * frac(a, b, k + t).1,
{
    if k >= 0 {
        lemma_p2_adds(k as nat, t);
        let pk = p2(k as nat);
        let pt = p2(t);
        assert((a * (pk * pt)) * b == (a * pk) * pt * b) by (nonlinear_arith);
    } else if k + t >= 0 {
        lemma_p2_adds((k + t) as nat, (-k) as nat);
        assert(((k + t) as nat + (-k) as nat) as nat == t);
        let pu = p2((k + t) as nat);
        let pv = p2((-k) as nat);
        assert((a * pu) * (b * pv) == a * (pu * pv) * b) by (nonlinear_arith);
    } else {
        lemma_p2_adds(t, (-(k + t)) as nat);
        assert((t + (-(k + t)) as nat) as nat == (-k) as nat);
        let pt = p2(t);
        let pw = p2((-(k + t)) as nat);
        assert(a * (b * (pt * pw)) == a * pt * (b * pw)) by (nonlinear_arith);
    }
}

/// A fraction at most `n` rounds to at most `n`.
pub proof fn lemma_round_at_most(x: nat, y: nat, n: nat)
    requires
        y > 0,
        x <= n * y,
    ensures
        round_half_even(x, y) <= n,
{
    let q = x / y;
    let r = x % y;
    assert(x == q * y + r && r < y) by (nonlinear_arith)
        requires
            y > 0,
            q == x / y,
            r == x % y,
    ;
    assert(q <= n) by (nonlinear_arith)
        requires
            x == q * y + r,
            x <= n * y,
            y > 0,
    ;
    if q == n {
        assert(r == 0) by (nonlinear_arith)
            requires
                x == q * y + r,
                x <= n * y,
                q == n,
        ;
    }
}

/// The value of `v` is at most `n`.
pub open spec fn at_most(v: (nat, int), n: nat) -> bool {
    frac(v.0, 1, v.1).0 <= n * frac(v.0, 1, v.1).1
}

/// A fraction `a · 2^k / b` written over the common denominator `2^s · b`.
pub proof fn lemma_frac_scaled(a: nat, b: nat, k: int, s: nat)
    requires
        k + s >= 0,
    ensures
        frac(a, b, k).0 * p2(s) * b == a * p2((k + s) as nat) * frac(a, b, k).1,
{
    if k >= 0 {
        lemma_p2_adds(k as nat, s);
        let pk = p2(k as nat);
        let ps = p2(s);
        assert((a * pk) * ps * b == a * (pk * ps) * b) by (nonlinear_arith);
    } else {
        lemma_p2_adds((k + s) as nat, (-k) as nat);
        assert(((k + s) as nat + (-k) as nat) as nat == s);
        let pu = p2((k + s) as nat);
        let pv = p2((-k) as nat);
        assert(a * (pu * pv) * b == a * pu * (b * pv)) by (nonlinear_arith);
    }
}

/// `v` is at most `n` when, scaled by `2^s`, its significand times
/// `2^(exp + s)` is at most `n · 2^s`.
pub proof fn lemma_at_most_scaled(v: (nat, int), n: nat, s: nat)
    requires
        v.1 + s >= 0,
    ensures
        at_most(v, n) <==> v.0 * p2((v.1 + s) as nat) <= n * p2(s),
{
    lemma_frac_scaled(v.0, 1, v.1, s);
    let p = frac(v.0, 1, v.1).0;
    let q = frac(v.0, 1, v.1).1;
    let m = v.0 * p2((v.1 + s) as nat);
    let ps = p2(s);
    lemma_p2_pos(s);
    lemma_p2_pos((-v.1) as nat);
    assert(q >= 1);
    assert(p <= n * q <==> m <= n * ps) by (nonlinear_arith)
        requires
            p * ps * 1 == m * q,
            q >= 1,
            ps >= 1,
    ;
}

/// Rounding with a scale at least the one of the value keeps it at most `n`.
proof fn lemma_round_at_most_fine(x: nat, y: nat, p: nat, q: nat, n: nat, t: nat)
    requires
        x * q == p * p2(t) * y,
        p <= n * q,
        q >= 1,
        y >= 1,
    ensures
        at_most((round_half_even(x, y), -(t as int)), n),
{
    let pt = p2(t);
    let sig = round_half_even(x, y);
    assert(x <= n * pt * y) by (nonlinear_arith)
        requires
            x * q == p * pt * y,
            p <= n * q,
            q >= 1,
    ;
    lemma_round_at_most(x, y, n * pt);
    lemma_at_most_scaled((sig, -(t as int)), n, t);
    assert((-(t as int) + t) as nat == 0);
    assert(p2(0) == 1);
    assert(sig * p2(0) <= n * pt) by (nonlinear_arith)
        requires
            p2(0) == 1,
            sig <= n * pt,
    ;
}

/// Rounding with a scale below the one of the value keeps it at most
/// `n <= 2^53`: the value can then only be `2^53` itself.
proof fn lemma_round_at_most_coarse(x: nat, y: nat, p: nat, q: nat, n: nat, t: nat)
    requires
        p * y == x * p2(t) * q,
        p <= n * q,
        q >= 1,
        y >= 1,
        t >= 1,
        p2(52) * y <= x,
        n <= p2(53),
    ensures
        at_most((round_half_even(x, y), t as int), n),
{
    let pt = p2(t);
    let c = p2(52);
    assert(p2(53) == 2 * c);
    lemma_p2_pos(52);
    assert(x * pt <= n * y) by (nonlinear_arith)
        requires
            p * y == x * pt * q,
            p <= n * q,
            q >= 1,
    ;
    assert(c * pt <= n) by (nonlinear_arith)
        requires
            x * pt <= n * y,
            c * y <= x,
            y >= 1,
    ;
    lemma_p2_grows(1, t);
    if t >= 2 {
        lemma_p2_grows(2, t);
        reveal_with_fuel(p2, 3);
        assert(false) by (nonlinear_arith)
            requires
                c * pt <= n,
                n <= 2 * c,
                4 <= pt,
                c >= 1,
        ;
    }
    reveal_with_fuel(p2, 2);
    assert(pt == 2);
    assert(x == c * y) by (nonlinear_arith)
        requires
            x * 2 <= n * y,
            n <= 2 * c,
            c * y <= x,
    ;
    assert(x / y == c && x % y == 0) by (nonlinear_arith)
        requires
            x == c * y,
            y >= 1,
    ;
    assert(round_half_even(x, y) == c);
    assert(frac(c, 1, t as int) == (c * 2, 1nat));
    assert(c * 2 <= n * 1);
}

/// A value at most `n` (no more than `2^53`) rounds to a binary64 number
/// at most `n`.
pub proof fn lemma_round64_at_most(a: nat, b: nat, k: int, n: nat)
    requires
        b > 0,
        n <= p2(53),
        frac(a, b, k).0 <= n * frac(a, b, k).1,
    ensures
        at_most(round64(a, b, k), n),
{
    if a == 0 {
        assert(frac(0, 1, 0) == (0nat, 1nat)) by {
            assert(0 * p2(0) == 0);
        }
    } else {
        lemma_binade_exists(a, b);
        let j = choose|j: int| in_binade(a, b, j);
        let x = frac(a, b, j).0;
        let y = frac(a, b, j).1;
        let p = frac(a, b, k).0;
        let q = frac(a, b, k).1;
        lemma_p2_pos((-k) as nat);
        lemma_p2_pos((-j) as nat);
        assert(q >= 1) by (nonlinear_arith)
            requires
                q == b || q == b * p2((-k) as nat),
                b >= 1,
                p2((-k) as nat) >= 1,
        ;
        assert(y >= 1) by (nonlinear_arith)
            requires
                y == b || y == b * p2((-j) as nat),
                b >= 1,
                p2((-j) as nat) >= 1,
        ;
        assert(round64(a, b, k) == (round_half_even(x, y), k - j));
        if j >= k {
            let t = (j - k) as nat;
            lemma_frac_shift(a, b, k, t);
            assert(k + t == j);
            lemma_round_at_most_fine(x, y, p, q, n, t);
            assert(-(t as int) == k - j);
        } else {
            let t = (k - j) as nat;
            lemma_frac_shift(a, b, j, t);
            assert(j + t == k);
            lemma_round_at_most_coarse(x, y, p, q, n, t);
            assert(t as int == k - j);
        }
    }
}

/// A count up to `2^53` converts to a binary64 number at most itself.
pub proof fn lemma_from_nat_at_most(n: nat)
    requires
        n <= p2(53),
    ensures
        at_most(from_nat(n), n),
{
    assert(p2(0) == 1);
    assert(frac(n, 1, 0) == (n, 1nat)) by {
        assert(n * p2(0) == n) by (nonlinear_arith)
            requires
                p2(0) == 1,
        ;
    }
    lemma_round64_at_most(n, 1, 0, n);
}

/// The exact product of a value at most one and a value at most `n` is at
/// most `n`.
pub proof fn lemma_mul_at_most(x: (nat, int), y: (nat, int), n: nat)
    requires
        at_most(x, 1),
        at_most(y, n),
    ensures
        at_most((x.0 * y.0, x.1 + y.1), n),
{
    let sx: nat = if x.1 < 0 {
        (-x.1) as nat
    } else {
        0
    };
    let sy: nat = if y.1 < 0 {
        (-y.1) as nat
    } else {
        0
    };
    lemma_at_most_scaled(x, 1, sx);
    lemma_at_most_scaled(y, n, sy);
    lemma_at_most_scaled((x.0 * y.0, x.1 + y.1), n, sx + sy);
    let ex = (x.1 + sx) as nat;
    let ey = (y.1 + sy) as nat;
    lemma_p2_adds(ex, ey);
    lemma_p2_adds(sx, sy);
    assert((x.1 + y.1 + (sx + sy)) as nat == ex + ey);
    let a = x.0 * p2(ex);
    let b = y.0 * p2(ey);
    assert(x.0 * y.0 * p2(ex + ey) == a * b) by (nonlinear_arith)
        requires
            p2(ex + ey) == p2(ex) * p2(ey),
            a == x.0 * p2(ex),
            b == y.0 * p2(ey),
    ;
    assert(a * b <= n * p2(sx + sy)) by (nonlinear_arith)
        requires
            a <= 1 * p2(sx),
            b <= n * p2(sy),
            p2(sx + sy) == p2(sx) * p2(sy),
    ;
}

/// A value at most `n` rounds half away from zero to at most `n`.
pub proof fn lemma_half_away_at_most(v: (nat, int), n: nat)
    requires
        at_most(v, n),
    ensures
        round_half_away(v) <= n,
{
    let p = frac(v.0, 1, v.1).0;
    let q = frac(v.0, 1, v.1).1;
    lemma_p2_pos((-v.1) as nat);
    assert(q >= 1);
    assert((2 * p + q) / (2 * q) <= n) by (nonlinear_arith)
        requires
            p <= n * q,
            q >= 1,
    {
        assert(2 * p + q < (n + 1) * (2 * q));
    }
}

/// A value at most `n`, times `c` and rounded to an integer, is at most `c · n`.
pub proof fn lemma_scaled_round_at_most(v: (nat, int), n: nat, c: nat)
    requires
        at_most(v, n),
    ensures
        scaled_round(v, c) <= c * n,
{
    let p = frac(v.0, 1, v.1).0;
    let q = frac(v.0, 1, v.1).1;
    let p2_ = frac(c * v.0, 1, v.1).0;
    assert(frac(c * v.0, 1, v.1).1 == q);
    assert(p2_ == c * p) by {
        if v.1 >= 0 {
            assert((c * v.0) * p2(v.1 as nat) == c * (v.0 * p2(v.1 as nat))) by (nonlinear_arith);
        }
    }
    lemma_p2_pos((-v.1) as nat);
    assert(p2_ <= (c * n) * q) by (nonlinear_arith)
        requires
            p2_ == c * p,
            p <= n * q,
    ;
    lemma_round_at_most(p2_, q, c * n);
}

/// A number that is not above one has a value at most one.
pub proof fn lemma_not_above_one(q: (nat, int))
    requires
        !less(from_nat(1), q),
    ensures
        at_most(q, 1),
{
    lemma_from_nat_one();
    let s: nat = (if q.1 < 0 {
        -q.1
    } else {
        q.1
    }) as nat + 52;
    let k = -52 - q.1;
    let big_p = frac(p2(52), q.0, k).0;
    let big_q = frac(p2(52), q.0, k).1;
    assert(big_q <= big_p);
    lemma_frac_scaled(p2(52), q.0, k, s);
    lemma_p2_adds(52, (k + s) as nat);
    assert(52 + (k + s) as nat == (s - q.1) as nat);
    lemma_p2_pos(52);
    lemma_p2_pos(k as nat);
    assert(big_p >= 1) by (nonlinear_arith)
        requires
            big_p == p2(52) || big_p == p2(52) * p2(k as nat),
            p2(52) >= 1,
            p2(k as nat) >= 1,
    ;
    let ps = p2(s);
    let pks = p2((k + s) as nat);
    assert(ps * q.0 <= p2(52) * pks) by (nonlinear_arith)
        requires
            big_p * ps * q.0 == p2(52) * pks * big_q,
            big_q <= big_p,
            big_p >= 1,
    ;
    let s2 = (s - q.1) as nat;
    lemma_at_most_scaled(q, 1, s2);
    assert((q.1 + s2) as nat == s);
    assert(q.0 * p2(s) <= 1 * p2(s2));
}

/// A finite binary64 number by its parts: the value is
/// `(-1)^negative · sig · 2^exp`, the significand of at most 53 bits (or
/// `2^53` itself, which rounding can give). Zero keeps its sign.
#[derive(Clone, Copy, Debug, PartialEq, Eq, Structural)]
pub struct Binary64 {
    pub(crate) negative: bool,
    pub(crate) sig: u64,
    pub(crate) exp: i64,
}

impl Binary64 {
    /// The parts are those of a finite binary64 number.
    #[verifier::type_invariant]
    pub(crate) closed spec fn wf(self) -> bool {
        &&& self.sig <= p2(53)
        &&& -1074 <= self.exp <= 971
    }

    /// Whether the number is negative (negative zero too).
    pub closed spec fn is_negative(self) -> bool {
        self.negative
    }

    /// The significand.
    pub closed spec fn significand(self) -> nat {
        self.sig as nat
    }

    /// The exponent.
    pub closed spec fn exponent(self) -> int {
        self.exp as int
    }

    /// The sign, significand and exponent, those of a finite binary64 number.
    pub fn parts(&self) -> (r: (bool, u64, i64))
        ensures
            r.0 == self.is_negative(),
            r.1 == self.significand(),
            r.2 == self.exponent(),
            r.1 <= p2(53),
            -1074 <= r.2 <= 971,
    {
        proof {
            use_type_invariant(self);
        }
        (self.negative, self.sig, self.exp)
    }

    /// The nonnegative number `sig · 2^exp`.
    pub(crate) fn nonnegative(sig: u64, exp: i64) -> (r: Binary64)
        requires
            sig <= p2(53),
            -1074 <= exp <= 971,
        ensures
            !r.is_negative(),
            r.significand() == sig,
            r.exponent() == exp,
    {
        Binary64 { negative: false, sig, exp }
    }
}

/// `x as u64` for the value of `x`: its whole part, zero for a negative
/// number, at most `u64::MAX`.
pub open spec fn whole_part(x: Binary64) -> nat {
    let w = frac(x.significand(), 1, x.exponent()).0 / frac(x.significand(), 1, x.exponent()).1;
    if x.is_negative() {
        0
    } else if w > u64::MAX {
        u64::MAX as nat
    } else {
        w
    }
}

impl Binary64 {
    /// `x as u64`: the whole part, zero for a negative number, at most
    /// `u64::MAX`.
    pub fn as_u64(&self) -> (r: u64)
        ensures
            r == whole_part(*self),
    {
        proof {
            lemma_p2_values();
        }
        let (negative, sig, exp) = self.parts();
        if negative {
            return 0;
        }
        if exp >= 0 {
            if sig == 0 {
                assert(frac(0, 1, exp as int) == (0nat, 1nat)) by {
                    assert(0 * p2(exp as nat) == 0);
                }
                return 0;
            }
            if exp >= 64 {
                proof {
                    lemma_p2_grows(64, exp as nat);
                    assert((sig as nat) * p2(exp as nat) >= p2(exp as nat)) by (nonlinear_arith)
                        requires
                            sig >= 1,
                    ;
                    assert(((sig as nat) * p2(exp as nat)) / 1 == (sig as nat) * p2(exp as nat));
                }
                return u64::MAX;
            }
            let p = pow2_u128(exp as u32);
            proof {
                lemma_p2_grows(exp as nat, 64);
            }
            assert(sig * p <= 0x20_0000_0000_0000 * 0x1_0000_0000_0000_0000) by (nonlinear_arith)
                requires
                    sig <= 0x20_0000_0000_0000,
                    p <= 0x1_0000_0000_0000_0000,
            ;
            let w = (sig as u128) * p;
            assert(w / 1 == w);
            if w > u64::MAX as u128 {
                u64::MAX
            } else {
                w as u64
            }
        } else {
            let k = (-exp) as u32;
            if k >= 60 {
                proof {
                    lemma_p2_grows(60, k as nat);
                    lemma_p2_adds(53, 7);
                    reveal_with_fuel(p2, 8);
                    let d = p2(k as nat);
                    assert((sig as nat) / d == 0) by (nonlinear_arith)
                        requires
                            sig < d,
                    ;
                }
                0
            } else {
                let p = pow2_u128(k);
                proof {
                    lemma_p2_pos(k as nat);
                }
                let w = (sig as u128) / p;
                w as u64
            }
        }
    }
}

/// The number that the 64 bits `bits` encode, by its sign, significand and
/// exponent: a sign bit, eleven exponent bits and 52 fraction bits;
/// nothing for infinities and NaNs.
pub open spec fn decoded(bits: nat) -> Option<(bool, nat, int)> {
    let field = (bits / p2(52)) % 2048;
    let fraction = bits % p2(52);
    let negative = bits / p2(63) % 2 == 1;
    if field == 2047 {
        None
    } else if field == 0 {
        Some((negative, fraction, -1074))
    } else {
        Some((negative, fraction + p2(52), field - 1075))
    }
}

impl Binary64 {
    /// The number whose bit pattern is `bits` (as `f64::to_bits` gives
    /// it); nothing for infinities and NaNs.
    pub fn from_bits(bits: u64) -> (r: Option<Binary64>)
        ensures
            r is Some <==> decoded(bits as nat) is Some,
            r matches Some(x) ==> decoded(bits as nat) == Some(
                (x.is_negative(), x.significand(), x.exponent()),
            ),
    {
        proof {
            lemma_p2_values();
            lemma_p2_adds(52, 11);
            lemma_p2_adds(63, 1);
            assert(p2(11) == 2048) by {
                reveal_with_fuel(p2, 12);
            }
        }
        let unit: u64 = 0x10_0000_0000_0000;
        let field = (bits / unit) % 2048;
        let fraction = bits % unit;
        let negative = bits / 0x8000_0000_0000_0000 % 2 == 1;
        if field == 2047 {
            None
        } else if field == 0 {
            Some(Binary64 { negative, sig: fraction, exp: -1074 })
        } else {
            Some(Binary64 { negative, sig: fraction + unit, exp: field as i64 - 1075 })
        }
    }
}

} // verus!
