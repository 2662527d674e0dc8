//! Binary64 numbers written with a fixed number of decimals, as `{:.d}`
//! writes them: exactly, the last decimal rounded half to even.
use vstd::prelude::*;
use crate::binary64::{
    frac, lemma_p2_adds, lemma_p2_grows, lemma_p2_pos, lemma_p2_values, lemma_round_exact,
    lemma_round_small, p2, pow2_u128, round_half_even_u128, scaled_round,
    Binary64,
};
use crate::text::{decimal, digit, digit_char, push_char, push_decimal};

verus! {

/// `10^d`.
pub open spec fn p10(d: nat) -> nat
    decreases d,
{
    if d == 0 {
        1
    } else {
        10 * p10((d - 1) as nat)
    }
}

/// The last `d` decimal digits of `n`, with zeros in front.
pub open spec fn padded(n: nat, d: nat) -> Seq<char>
    decreases d,
{
    if d == 0 {
        Seq::empty()
    } else {
        padded(n / 10, (d - 1) as nat).push(digit_char(n % 10))
    }
}

/// The decimal point and the `d` decimals of `t` hundredths, thousandths, …
/// (nothing at all for no decimals).
pub open spec fn decimals(t: nat, d: nat) -> Seq<char> {
    if d == 0 {
        Seq::empty()
    } else {
        seq!['.'] + padded(t, d)
    }
}

/// `(-1)^negative · sig · 2^exp` with `d` decimals, as `{:.d}` writes a
/// binary64 number: the value times `10^d`, rounded to an integer with
/// halves to the even one, written with a decimal point before its last `d`
/// digits; a minus sign in front of a negative number (negative zero too).
pub open spec fn fixed_parts_text(negative: bool, sig: nat, exp: int, d: nat) -> Seq<char> {
    let t = scaled_round((sig, exp), p10(d));
    (if negative {
        seq!['-']
    } else {
        Seq::empty()
    }) + decimal(t / p10(d)) + decimals(t % p10(d), d)
}

/// `x` with `d` decimals, as `{:.d}` writes it.
pub open spec fn fixed_text(x: Binary64, d: nat) -> Seq<char> {
    fixed_parts_text(x.is_negative(), x.significand(), x.exponent(), d)
}

/// The number whose decimal digits, least significant first, are `ds`.
pub open spec fn digits_value(ds: Seq<u8>) -> nat
    decreases ds.len(),
{
    if ds.len() == 0 {
        0
    } else {
        ds[0] as nat + 10 * digits_value(ds.drop_first())
    }
}

/// Every entry of `ds` is a decimal digit and, unless `ds` is empty, the
/// most significant one is not zero.
pub open spec fn normal_digits(ds: Seq<u8>) -> bool {
    &&& forall|i: int| 0 <= i < ds.len() ==> ds[i] < 10
    &&& ds.len() > 0 ==> ds.last() > 0
}

/// The characters of the digits `ds`, most significant first.
pub open spec fn digits_text(ds: Seq<u8>) -> Seq<char> {
    Seq::new(ds.len(), |i: int| digit_char(ds[ds.len() - 1 - i] as nat))
}

/// Appending a digit adds it at the next power of ten.
proof fn lemma_digits_push(ds: Seq<u8>, d: u8)
    ensures
        digits_value(ds.push(d)) == digits_value(ds) + d * p10(ds.len()),
    decreases ds.len(),
{
    if ds.len() == 0 {
        assert(ds.push(d).drop_first() =~= Seq::<u8>::empty());
        assert(digits_value(Seq::<u8>::empty()) == 0);
        assert(digits_value(ds.push(d)) == d);
        assert(p10(0) == 1);
    } else {
        assert(ds.push(d).drop_first() =~= ds.drop_first().push(d));
        lemma_digits_push(ds.drop_first(), d);
        assert(p10(ds.len()) == 10 * p10((ds.len() - 1) as nat));
        let v = digits_value(ds.drop_first());
        let p = p10((ds.len() - 1) as nat);
        assert(digits_value(ds.push(d)) == ds[0] + 10 * digits_value(ds.drop_first().push(d)));
        assert(digits_value(ds) == ds[0] + 10 * v);
        assert(10 * (v + d * p) == 10 * v + d * (10 * p)) by (nonlinear_arith);
    }
}

/// Normal digits with a nonzero top digit are worth at least one.
proof fn lemma_digits_positive(ds: Seq<u8>)
    requires
        normal_digits(ds),
        ds.len() > 0,
    ensures
        digits_value(ds) >= 1,
    decreases ds.len(),
{
    if ds.len() > 1 {
        assert(normal_digits(ds.drop_first()));
        lemma_digits_positive(ds.drop_first());
    }
}

/// Normal digits are written as their number is.
proof fn lemma_digits_text(ds: Seq<u8>)
    requires
        normal_digits(ds),
        ds.len() > 0,
    ensures
        decimal(digits_value(ds)) == digits_text(ds),
    decreases ds.len(),
{
    let n = digits_value(ds);
    if ds.len() == 1 {
        assert(ds.drop_first() =~= Seq::<u8>::empty());
        assert(n == ds[0]);
        assert(digits_text(ds) =~= seq![digit_char(ds[0] as nat)]);
    } else {
        let rest = ds.drop_first();
        assert(normal_digits(rest));
        lemma_digits_positive(rest);
        lemma_digits_text(rest);
        let v = digits_value(rest);
        assert(n / 10 == v && n % 10 == ds[0]) by (nonlinear_arith)
            requires
                n == ds[0] + 10 * v,
                ds[0] < 10,
        ;
        assert(n >= 10);
        assert(digits_text(ds) =~= digits_text(rest).push(digit_char(ds[0] as nat)));
    }
}

/// The decimal digits of `n`, least significant first.
fn digits_of(n: u64) -> (r: Vec<u8>)
    requires
        n > 0,
    ensures
        normal_digits(r@),
        r@.len() > 0,
        digits_value(r@) == n,
{
    let mut r: Vec<u8> = Vec::new();
    let mut m: u64 = n;
    assert(p10(0) == 1);
    assert(r@ =~= Seq::<u8>::empty());
    assert(digits_value(r@) == 0);
    while m > 0
        invariant
            forall|i: int| 0 <= i < r@.len() ==> r@[i] < 10,
            m == 0 ==> r@.len() > 0 && r@.last() > 0,
            m < n ==> r@.len() > 0,
            digits_value(r@) + p10(r@.len()) * m == n,
        decreases m,
    {
        let d = (m % 10) as u8;
        let ghost before = r@;
        r.push(d);
        proof {
            lemma_digits_push(before, d);
            assert(r@ == before.push(d));
            assert(p10(r@.len()) == 10 * p10(before.len()));
            let p = p10(before.len());
            assert(p * m == d * p + (10 * p) * (m / 10)) by (nonlinear_arith)
                requires
                    d == m % 10,
            ;
        }
        m = m / 10;
    }
    r
}

/// `2 · ds` in decimal digits.
fn double_digits(ds: &Vec<u8>) -> (r: Vec<u8>)
    requires
        normal_digits(ds@),
    ensures
        normal_digits(r@),
        r@.len() >= ds@.len(),
        digits_value(r@) == 2 * digits_value(ds@),
{
    let mut r: Vec<u8> = Vec::new();
    let mut carry: u8 = 0;
    let n = ds.len();
    assert(p10(0) == 1);
    assert(ds@.take(0) =~= Seq::<u8>::empty());
    for i in 0..n
        invariant
            n == ds@.len(),
            normal_digits(ds@),
            r@.len() == i,
            forall|j: int| 0 <= j < r@.len() ==> r@[j] < 10,
            carry <= 1,
            i > 0 && carry == 0 ==> r@[i - 1] >= 2 * ds@[i - 1],
            digits_value(r@) + carry * p10(i as nat) == 2 * digits_value(ds@.take(i as int)),
    {
        let v = ds[i] * 2 + carry;
        let ghost before = r@;
        let ghost c0 = carry;
        r.push(v % 10);
        carry = v / 10;
        proof {
            lemma_digits_push(before, (v % 10) as u8);
            assert(ds@.take(i + 1) =~= ds@.take(i as int).push(ds@[i as int]));
            lemma_digits_push(ds@.take(i as int), ds@[i as int]);
            assert(p10((i + 1) as nat) == 10 * p10(i as nat));
            let p = p10(i as nat);
            assert((v % 10) * p + (v / 10) * (10 * p) == v * p) by (nonlinear_arith);
            assert(v * p == 2 * (ds@[i as int] * p) + c0 * p) by (nonlinear_arith)
                requires
                    v == ds@[i as int] * 2 + c0,
            ;
        }
    }
    assert(ds@.take(n as int) =~= ds@);
    if carry > 0 {
        let ghost before = r@;
        r.push(carry);
        proof {
            lemma_digits_push(before, carry);
        }
    }
    r
}

/// Appends the digits `ds`, most significant first.
fn push_digits(out: &mut String, ds: &Vec<u8>)
    requires
        forall|i: int| 0 <= i < ds@.len() ==> ds@[i] < 10,
    ensures
        final(out)@ == old(out)@ + digits_text(ds@),
{
    let n = ds.len();
    let ghost start = out@;
    let mut i: usize = n;
    while i > 0
        invariant
            i <= n == ds@.len(),
            forall|j: int| 0 <= j < ds@.len() ==> ds@[j] < 10,
            out@ == start + digits_text(ds@).take((n - i) as int),
        decreases i,
    {
        i = i - 1;
        push_char(out, digit(ds[i] as u64));
        assert(digits_text(ds@).take((n - i) as int) =~= digits_text(ds@).take(
            (n - i - 1) as int,
        ).push(digit_char(ds@[i as int] as nat)));
    }
    assert(digits_text(ds@).take(n as int) =~= digits_text(ds@));
}

/// Appends the decimal text of `sig · 2^e`.
fn push_decimal_pow2(out: &mut String, sig: u64, e: u32)
    requires
        sig <= p2(53),
    ensures
        final(out)@ == old(out)@ + decimal((sig as nat) * p2(e as nat)),
{
    proof {
        lemma_p2_values();
    }
    if sig == 0 {
        assert(sig * p2(e as nat) == 0);
        push_decimal(out, 0);
        return;
    }
    if e <= 64 {
        let p = pow2_u128(e);
        proof {
            lemma_p2_grows(e as nat, 64);
        }
        assert(sig * p <= 0x20_0000_0000_0000 * 0x1_0000_0000_0000_0000) by (nonlinear_arith)
            requires
                sig <= 0x20_0000_0000_0000,
                p <= 0x1_0000_0000_0000_0000,
        ;
        push_decimal(out, (sig as u128) * p);
        return;
    }
    let mut ds = digits_of(sig);
    let mut j: u32 = 0;
    assert(p2(0) == 1);
    while j < e
        invariant
            j <= e,
            normal_digits(ds@),
            ds@.len() > 0,
            digits_value(ds@) == sig * p2(j as nat),
        decreases e - j,
    {
        let next = double_digits(&ds);
        proof {
            assert(p2((j + 1) as nat) == 2 * p2(j as nat));
            assert(2 * (sig * p2(j as nat)) == sig * p2((j + 1) as nat)) by (nonlinear_arith)
                requires
                    p2((j + 1) as nat) == 2 * p2(j as nat),
            ;
        }
        ds = next;
        j = j + 1;
    }
    proof {
        lemma_digits_text(ds@);
    }
    push_digits(out, &ds);
}

/// Appends the last `d` decimal digits of `n`, zeros in front.
fn push_padded(out: &mut String, n: u128, d: u32)
    ensures
        final(out)@ == old(out)@ + padded(n as nat, d as nat),
    decreases d,
{
    if d > 0 {
        push_padded(out, n / 10, d - 1);
        push_char(out, digit((n % 10) as u64));
        assert(final(out)@ =~= old(out)@ + padded(n as nat, d as nat));
    } else {
        assert(final(out)@ =~= old(out)@ + padded(n as nat, d as nat));
    }
}

/// `10^d` as a machine integer.
fn pow10_u64(d: u32) -> (r: u64)
    requires
        d <= 4,
    ensures
        r == p10(d as nat),
        1 <= r <= 10_000,
{
    proof {
        reveal_with_fuel(p10, 5);
    }
    if d == 0 {
        1
    } else if d == 1 {
        10
    } else if d == 2 {
        100
    } else if d == 3 {
        1000
    } else {
        10_000
    }
}

/// Appends `x` with `d` decimals, as `{:.d}` writes it.
pub fn push_fixed(out: &mut String, x: &Binary64, d: u32)
    requires
        d <= 4,
    ensures
        final(out)@ == old(out)@ + fixed_text(*x, d as nat),
{
    proof {
        lemma_p2_values();
    }
    let (negative, sig, exp) = x.parts();
    push_fixed_parts(out, negative, sig, exp, d);
}

/// Appends the decimal point and the `d` last digits of `n`, unless `d` is
/// zero.
fn push_decimals(out: &mut String, n: u128, d: u32)
    ensures
        final(out)@ == old(out)@ + decimals(n as nat, d as nat),
{
    if d > 0 {
        push_char(out, '.');
        push_padded(out, n, d);
        assert(final(out)@ =~= old(out)@ + decimals(n as nat, d as nat));
    } else {
        assert(final(out)@ =~= old(out)@ + decimals(n as nat, d as nat));
    }
}

/// Appends `(-1)^negative · sig · 2^exp` with `d` decimals.
pub fn push_fixed_parts(out: &mut String, negative: bool, sig: u64, exp: i64, d: u32)
    requires
        sig <= p2(53),
        -1074 <= exp <= 971,
        d <= 4,
    ensures
        final(out)@ == old(out)@ + fixed_parts_text(negative, sig as nat, exp as int, d as nat),
{
    proof {
        lemma_p2_values();
    }
    let ghost start = out@;
    let ghost sign: Seq<char> = if negative {
        seq!['-']
    } else {
        Seq::empty()
    };
    if negative {
        push_char(out, '-');
    }
    assert(out@ == start + sign);
    let c = pow10_u64(d);
    let ghost t = scaled_round((sig as nat, exp as int), p10(d as nat));
    if exp >= 0 {
        let ghost n: nat = (sig as nat) * p2(exp as nat);
        proof {
            assert(frac((c as nat) * (sig as nat), 1, exp as int) == ((c as nat) * n, 1nat)) by {
                assert((c as nat) * (sig as nat) * p2(exp as nat) == (c as nat) * n) by (nonlinear_arith)
                    requires
                        n == sig * p2(exp as nat),
                ;
            }
            lemma_round_exact((c as nat) * n);
            assert(t == c * n);
            assert(t / p10(d as nat) == n && t % p10(d as nat) == 0) by (nonlinear_arith)
                requires
                    t == c * n,
                    c == p10(d as nat),
                    c >= 1,
            ;
        }
        push_decimal_pow2(out, sig, exp as u32);
        push_decimals(out, 0, d);
        assert(out@ =~= start + fixed_parts_text(negative, sig as nat, exp as int, d as nat));
    } else {
        let k = (-exp) as u32;
        assert(sig * c <= 0x20_0000_0000_0000 * 10_000) by (nonlinear_arith)
            requires
                sig <= 0x20_0000_0000_0000,
                c <= 10_000,
        ;
        let m: u128 = (sig as u128) * (c as u128);
        proof {
            assert(frac((c as nat) * (sig as nat), 1, exp as int) == (m as nat, p2(k as nat))) by {
                assert((c as nat) * (sig as nat) == m) by (nonlinear_arith)
                    requires
                        m == sig * c,
                ;
                assert(1 * p2(k as nat) == p2(k as nat));
            }
        }
        let t_exec: u128 = if k >= 68 {
            proof {
                lemma_p2_grows(68, k as nat);
                lemma_p2_adds(64, 4);
                assert(2 * m < p2(k as nat));
                lemma_round_small(m as nat, p2(k as nat));
            }
            0
        } else {
            let p = pow2_u128(k);
            proof {
                lemma_p2_pos(k as nat);
            }
            round_half_even_u128(m, p)
        };
        assert(t_exec == t);
        push_decimal(out, t_exec / (c as u128));
        push_decimals(out, t_exec % (c as u128), d);
        assert(out@ =~= start + fixed_parts_text(negative, sig as nat, exp as int, d as nat));
    }
}

} // verus!
