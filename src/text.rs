//! Text of a magnitude: the exact decimal where the decimal expansion ends,
//! a decimal rounded to 17 significant digits where it does not (trailing
//! zeros dropped, no trailing point), and `inf`, `-inf` or `NaN` for the
//! values outside the rationals.
use vstd::prelude::*;
use vstd::math::abs;
use vstd::arithmetic::div_mod::{
    lemma_fundamental_div_mod, lemma_fundamental_div_mod_converse,
};
use crate::magnitude::{Magnitude, pow10};

verus! {

/// Most fraction digits that long division is run for. A canonical
/// denominator is below `2^127`, so an expansion that ends does so within
/// 127 digits.
pub const MAX_FRACTION_DIGITS: u32 = 128;

pub open spec fn digit_char(d: nat) -> char {
    if d == 0 {
        '0'
    } else if d == 1 {
        '1'
    } else if d == 2 {
        '2'
    } else if d == 3 {
        '3'
    } else if d == 4 {
        '4'
    } else if d == 5 {
        '5'
    } else if d == 6 {
        '6'
    } else if d == 7 {
        '7'
    } else if d == 8 {
        '8'
    } else {
        '9'
    }
}

/// The decimal digits of `n`, most significant first, without leading zeros.
pub open spec fn digits(n: nat) -> Seq<char>
    decreases n,
{
    if n < 10 {
        seq![digit_char(n)]
    } else {
        digits(n / 10).push(digit_char(n % 10))
    }
}

/// The digits after the point of `r / d` (with `r < d`) by long division,
/// when the division ends within `fuel` digits.
pub open spec fn fraction_digits(r: nat, d: nat, fuel: nat) -> Option<Seq<char>>
    decreases fuel,
{
    if r == 0 {
        Some(Seq::empty())
    } else if fuel == 0 || d == 0 {
        None
    } else {
        prepend(seq![digit_char(r * 10 / d)], fraction_digits((r * 10) % d, d, (fuel - 1) as nat))
    }
}

pub open spec fn prepend(s: Seq<char>, o: Option<Seq<char>>) -> Option<Seq<char>> {
    match o {
        Some(t) => Some(s + t),
        None => None,
    }
}

/// Significant digits shown of a decimal expansion that does not end.
pub const SIGNIFICANT_DIGITS: u32 = 17;

/// How many of the first fraction digits of `r / d` (with `r < d`) are
/// zero, counted up to `fuel`.
pub open spec fn leading_zeros(r: nat, d: nat, fuel: nat) -> nat
    decreases fuel,
{
    if fuel == 0 || r * 10 >= d {
        0
    } else {
        1 + leading_zeros(r * 10, d, (fuel - 1) as nat)
    }
}

/// Fraction digits kept of `a / d` so that 17 significant digits show (none
/// where the integer part has 17 digits or more).
pub open spec fn places(a: nat, d: nat) -> nat {
    let ip = a / d;
    if ip > 0 {
        if digits(ip).len() >= SIGNIFICANT_DIGITS as nat {
            0
        } else {
            (SIGNIFICANT_DIGITS - digits(ip).len()) as nat
        }
    } else {
        leading_zeros(a % d, d, 40) + SIGNIFICANT_DIGITS as nat
    }
}

/// `(a / d) * 10^k`, rounded half up to an integer.
pub open spec fn rounded(a: nat, d: nat, k: nat) -> int {
    (2 * a * pow10(k) + d) / (2 * d as int)
}

/// `f` with `k` fraction digits, without its trailing zero digits.
pub open spec fn trimmed(f: int, k: nat) -> (int, nat)
    decreases k,
{
    if k > 0 && f % 10 == 0 {
        trimmed(f / 10, (k - 1) as nat)
    } else {
        (f, k)
    }
}

pub open spec fn zeros(k: nat) -> Seq<char> {
    Seq::new(k, |i: int| '0')
}

/// The integer `r` read with `k` fraction digits, trailing zeros dropped.
pub open spec fn decimal_text(r: int, k: nat) -> Seq<char> {
    let t = trimmed(r % pow10(k), k);
    if t.1 == 0 {
        digits((r / pow10(k)) as nat)
    } else {
        digits((r / pow10(k)) as nat) + seq!['.'] + zeros((t.1 - digits(t.0 as nat).len()) as nat)
            + digits(t.0 as nat)
    }
}

/// The text of the canonical pair `p`.
pub open spec fn magnitude_text(p: (int, int)) -> Seq<char> {
    if p.1 == 0 {
        if p.0 > 0 {
            seq!['i', 'n', 'f']
        } else if p.0 < 0 {
            seq!['-', 'i', 'n', 'f']
        } else {
            seq!['N', 'a', 'N']
        }
    } else {
        let minus: Seq<char> = if p.0 < 0 {
            seq!['-']
        } else {
            Seq::empty()
        };
        let a = abs(p.0);
        let d = p.1 as nat;
        match fraction_digits(a % d, d, MAX_FRACTION_DIGITS as nat) {
            Some(f) => if f.len() == 0 {
                minus + digits(a / d)
            } else {
                minus + digits(a / d) + seq!['.'] + f
            },
            None => minus + decimal_text(rounded(a, d, places(a, d)), places(a, d)),
        }
    }
}

fn digit_str(d: u128) -> (r: &'static str)
    requires
        d < 10,
    ensures
        r@ == seq![digit_char(d as nat)],
{
    proof {
        reveal_strlit("0");
        reveal_strlit("1");
        reveal_strlit("2");
        reveal_strlit("3");
        reveal_strlit("4");
        reveal_strlit("5");
        reveal_strlit("6");
        reveal_strlit("7");
        reveal_strlit("8");
        reveal_strlit("9");
    }
    if d == 0 {
        "0"
    } else if d == 1 {
        "1"
    } else if d == 2 {
        "2"
    } else if d == 3 {
        "3"
    } else if d == 4 {
        "4"
    } else if d == 5 {
        "5"
    } else if d == 6 {
        "6"
    } else if d == 7 {
        "7"
    } else if d == 8 {
        "8"
    } else {
        "9"
    }
}

fn push_digits(s: &mut String, n: u128)
    ensures
        final(s)@ == old(s)@ + digits(n as nat),
    decreases n,
{
    if n >= 10 {
        push_digits(s, n / 10);
    }
    s.append(digit_str(n % 10));
    proof {
        if n >= 10 {
            assert(old(s)@ + digits(n as nat) =~= old(s)@ + digits((n / 10) as nat) + seq![
                digit_char((n % 10) as nat),
            ]);
        }
    }
}

/// `(10 * r) / d` and `(10 * r) % d` for `r < d`, without forming `10 * r`.
fn times_ten_div_mod(r: u128, d: u128) -> (res: (u128, u128))
    requires
        r < d,
    ensures
        res.0 == (10 * r) / (d as int),
        res.1 == (10 * r) % (d as int),
        res.0 < 10,
{
    let mut q: u128 = 0;
    let mut m: u128 = 0;
    let mut i: u128 = 0;
    while i < 10
        invariant
            r < d,
            i <= 10,
            q <= i,
            m < d,
            q * d + m == i * r,
        decreases 10 - i,
    {
        if m >= d - r {
            m = m - (d - r);
            q = q + 1;
        } else {
            m = m + r;
        }
        assert(q * d + m == (i + 1) * r) by (nonlinear_arith)
            requires
                q * d + m == i * r + r || (q - 1) * d + (m + d - r) == i * r,
        ;
        i = i + 1;
    }
    proof {
        vstd::arithmetic::div_mod::lemma_fundamental_div_mod_converse(
            10 * r,
            d as int,
            q as int,
            m as int,
        );
        assert(q < 10) by (nonlinear_arith)
            requires
                q * d + m == 10 * r,
                r < d,
                m >= 0,
        ;
    }
    (q, m)
}

/// The digits after the point of `r / d`, or `None` where long division
/// does not end within `MAX_FRACTION_DIGITS` digits.
fn fraction_text(r: u128, d: u128) -> (t: Option<String>)
    requires
        r < d,
    ensures
        match t {
            Some(s) => fraction_digits(r as nat, d as nat, MAX_FRACTION_DIGITS as nat) == Some(s@),
            None => fraction_digits(r as nat, d as nat, MAX_FRACTION_DIGITS as nat) is None,
        },
{
    let mut out = String::new();
    let mut rem: u128 = r;
    let mut k: u32 = 0;
    while rem != 0 && k < MAX_FRACTION_DIGITS
        invariant
            rem < d,
            k <= MAX_FRACTION_DIGITS,
            fraction_digits(r as nat, d as nat, MAX_FRACTION_DIGITS as nat) == prepend(
                out@,
                fraction_digits(rem as nat, d as nat, (MAX_FRACTION_DIGITS - k) as nat),
            ),
        decreases MAX_FRACTION_DIGITS - k,
    {
        let (digit, next) = times_ten_div_mod(rem, d);
        let ghost before = out@;
        out.append(digit_str(digit));
        proof {
            let rest = fraction_digits(next as nat, d as nat, (MAX_FRACTION_DIGITS - k - 1) as nat);
            assert(fraction_digits(rem as nat, d as nat, (MAX_FRACTION_DIGITS - k) as nat) == prepend(
                seq![digit_char(digit as nat)],
                rest,
            ));
            match rest {
                Some(t) => {
                    assert(before + (seq![digit_char(digit as nat)] + t) =~= out@ + t);
                },
                None => {},
            }
        }
        rem = next;
        k = k + 1;
    }
    if rem == 0 {
        Some(out)
    } else {
        None
    }
}

proof fn lemma_pow10_add(a: nat, b: nat)
    ensures
        pow10(a + b) == pow10(a) * pow10(b),
        pow10(a) >= 1,
    decreases a,
{
    if a > 0 {
        lemma_pow10_add((a - 1) as nat, b);
        assert(pow10(a + b) == 10 * pow10((a - 1 + b) as nat));
        assert(10 * (pow10((a - 1) as nat) * pow10(b)) == (10 * pow10((a - 1) as nat)) * pow10(b))
            by (nonlinear_arith);
    }
}

proof fn lemma_pow10_monotonic(a: nat, b: nat)
    requires
        a <= b,
    ensures
        pow10(a) <= pow10(b),
{
    lemma_pow10_add(a, (b - a) as nat);
    lemma_pow10_add((b - a) as nat, 0);
    assert(pow10(a) * pow10((b - a) as nat) >= pow10(a)) by (nonlinear_arith)
        requires
            pow10((b - a) as nat) >= 1,
            pow10(a) >= 1,
    ;
}

/// A number is below ten to the power of its digit count.
proof fn lemma_digits_len(n: nat)
    ensures
        digits(n).len() >= 1,
        n < pow10(digits(n).len()),
    decreases n,
{
    if n >= 10 {
        lemma_digits_len(n / 10);
        let k = digits(n / 10).len();
        assert(digits(n).len() == k + 1);
        assert(pow10(k + 1) == 10 * pow10(k));
    } else {
        assert(pow10(1) == 10) by {
            reveal_with_fuel(pow10, 2);
        }
    }
}

/// A number below `10^k` has at most `k` digits.
proof fn lemma_digits_len_le(n: nat, k: nat)
    requires
        k >= 1,
        n < pow10(k),
    ensures
        digits(n).len() <= k,
    decreases n,
{
    if n >= 10 {
        assert(pow10(k) == 10 * pow10((k - 1) as nat));
        if k == 1 {
            assert(pow10(0) == 1);
        }
        lemma_digits_len_le(n / 10, (k - 1) as nat);
    }
}

fn digit_count(n: u128) -> (r: usize)
    ensures
        r == digits(n as nat).len(),
    decreases n,
{
    if n < 10 {
        1
    } else {
        proof {
            assert(pow10(38) == 100_000_000_000_000_000_000_000_000_000_000_000_000) by {
                reveal_with_fuel(pow10, 39);
            }
            lemma_digits_len_le((n / 10) as nat, 38);
        }
        digit_count(n / 10) + 1
    }
}

fn pow10_u128(k: u32) -> (r: u128)
    requires
        k <= 38,
    ensures
        r == pow10(k as nat),
{
    let mut r: u128 = 1;
    let mut i: u32 = 0;
    while i < k
        invariant
            i <= k <= 38,
            r == pow10(i as nat),
        decreases k - i,
    {
        proof {
            lemma_pow10_monotonic((i + 1) as nat, 38);
            assert(pow10(38) == 100_000_000_000_000_000_000_000_000_000_000_000_000) by {
                reveal_with_fuel(pow10, 39);
            }
            assert(pow10((i + 1) as nat) == 10 * pow10(i as nat));
        }
        r = r * 10;
        i = i + 1;
    }
    r
}

/// `a / d` (whose decimal expansion does not end) rounded to 17
/// significant digits.
fn rounded_text(a: u128, d: u128) -> (t: String)
    requires
        0 < d <= i128::MAX,
        a <= i128::MAX,
        a % d != 0,
    ensures
        t@ == decimal_text(rounded(a as nat, d as nat, places(a as nat, d as nat)), places(a as nat, d as nat)),
{
    let ip = a / d;
    let r0 = a % d;
    let ghost an = a as nat;
    let ghost dn = d as nat;
    let ghost p_spec = places(an, dn);
    proof {
        lemma_fundamental_div_mod(a as int, d as int);
    }
    let mut z: u32 = 0;
    let p: u32;
    if ip > 0 {
        let n = digit_count(ip);
        proof {
            assert(pow10(39) > 0x7fff_ffff_ffff_ffff_ffff_ffff_ffff_ffff) by {
                reveal_with_fuel(pow10, 40);
            }
            lemma_digits_len_le(ip as nat, 39);
        }
        p = if n >= 17 {
            0
        } else {
            (17 - n) as u32
        };
    } else {
        let mut t: u128 = r0;
        while z < 40 && t < (d + 9) / 10
            invariant
                0 < d <= i128::MAX,
                dn == d as nat,
                z <= 40,
                t == r0 * pow10(z as nat),
                0 < t < d,
                leading_zeros(r0 as nat, dn, 40) == z + leading_zeros(t as nat, dn, (40 - z) as nat),
            decreases 40 - z,
        {
            assert(t * 10 < d);
            let ghost fuel: nat = (40 - z) as nat;
            let ghost tn: nat = t as nat;
            assert(fuel > 0);
            assert(tn * 10 < dn);
            assert(leading_zeros(tn, dn, fuel) == 1 + leading_zeros(tn * 10, dn, (fuel - 1) as nat));
            assert(pow10((z + 1) as nat) == 10 * pow10(z as nat));
            assert(t * 10 == r0 * pow10((z + 1) as nat)) by (nonlinear_arith)
                requires
                    t == r0 * pow10(z as nat),
                    pow10((z + 1) as nat) == 10 * pow10(z as nat),
            ;
            t = t * 10;
            z = z + 1;
        }
        proof {
            if z < 40 {
                assert(t * 10 >= d);
            }
            assert(leading_zeros(t as nat, dn, (40 - z) as nat) == 0);
        }
        p = z + 17;
    }
    assert(p == p_spec);
    // r0 * 10^z < d, and p - z <= 17
    assert(r0 * pow10(z as nat) < d) by {
        if ip > 0 {
            assert(z == 0);
            assert(pow10(0) == 1);
        }
    }
    let mut f: u128 = 0;
    let mut rem: u128 = r0;
    let mut k: u32 = 0;
    while k < p
        invariant
            0 < d <= i128::MAX,
            k <= p <= z + 17,
            r0 * pow10(z as nat) < d,
            rem < d,
            f * d + rem == r0 * pow10(k as nat),
            f < 100_000_000_000_000_000,
        decreases p - k,
    {
        let (dig, next) = times_ten_div_mod(rem, d);
        proof {
            lemma_fundamental_div_mod(10 * rem as int, d as int);
            assert(pow10((k + 1) as nat) == 10 * pow10(k as nat));
            let nf = f * 10 + dig;
            assert(nf * d + next == r0 * pow10((k + 1) as nat)) by (nonlinear_arith)
                requires
                    f * d + rem == r0 * pow10(k as nat),
                    10 * rem == d * dig + next,
                    nf == f * 10 + dig,
                    pow10((k + 1) as nat) == 10 * pow10(k as nat),
            ;
            lemma_scaled_below(r0 as int, d as int, z as nat, (k + 1) as nat);
            assert(nf < 100_000_000_000_000_000) by (nonlinear_arith)
                requires
                    nf * d + next == r0 * pow10((k + 1) as nat),
                    r0 * pow10((k + 1) as nat) < d * 100_000_000_000_000_000,
                    next >= 0,
                    d > 0,
            ;
        }
        f = f * 10 + dig;
        rem = next;
        k = k + 1;
    }
    let up: u128 = if rem >= d - rem {
        1
    } else {
        0
    };
    let r: u128;
    if ip > 0 {
        let scale = pow10_u128(p);
        proof {
            lemma_digits_len(ip as nat);
            lemma_scaled_below(r0 as int, d as int, 0, p as nat);
            let n = digits(ip as nat).len();
            if n < 17 {
                lemma_pow10_add(n, p as nat);
                assert(n + p == 17);
                assert(pow10(17) == 100_000_000_000_000_000) by {
                    reveal_with_fuel(pow10, 18);
                }
                assert(ip * scale + scale <= 100_000_000_000_000_000) by (nonlinear_arith)
                    requires
                        ip < pow10(n),
                        pow10(n) * scale == 100_000_000_000_000_000,
                        scale == pow10(p as nat),
                ;
                assert(f < scale) by (nonlinear_arith)
                    requires
                        f * d + rem == r0 * scale,
                        r0 * scale < d * scale,
                        rem >= 0,
                        d > 0,
                ;
            } else {
                assert(p == 0 && scale == 1);
                assert(f == 0) by (nonlinear_arith)
                    requires
                        f * d + rem == r0 * 1,
                        r0 < d,
                        rem >= 0,
                ;
            }
        }
        r = ip * scale + f + up;
    } else {
        r = f + up;
    }
    proof {
        lemma_fundamental_div_mod(a as int, d as int);
        assert(an == ip * d + r0) by (nonlinear_arith)
            requires
                a == d * (a as int / d as int) + a as int % d as int,
                ip == a as int / d as int,
                r0 == a as int % d as int,
                an == a,
        ;
        lemma_rounding(an, dn, ip as int, r0 as int, p as nat, f as int, rem as int, up as int, r as int);
    }
    assert(r == rounded(an, dn, p_spec));
    // split into integer and fraction parts
    let q: u128;
    let mut fr: u128;
    if p <= 38 {
        let scale = pow10_u128(p);
        proof {
            lemma_pow10_add(p as nat, 0);
        }
        q = r / scale;
        fr = r % scale;
    } else {
        proof {
            lemma_pow10_monotonic(17, p as nat);
            assert(pow10(17) == 100_000_000_000_000_000) by {
                reveal_with_fuel(pow10, 18);
            }
            assert(r <= 100_000_000_000_000_000);
            lemma_pow10_monotonic(18, p as nat);
            assert(pow10(18) == 1_000_000_000_000_000_000) by {
                reveal_with_fuel(pow10, 19);
            }
            lemma_fundamental_div_mod_converse(r as int, pow10(p as nat), 0, r as int);
        }
        q = 0;
        fr = r;
    }
    let mut kk: u32 = p;
    proof {
        lemma_fundamental_div_mod(r as int, pow10(p as nat));
    }
    while kk > 0 && fr % 10 == 0
        invariant
            trimmed(r as int % pow10(p as nat), p as nat) == trimmed(fr as int, kk as nat),
            fr < pow10(kk as nat),
        decreases kk,
    {
        assert(pow10(kk as nat) == 10 * pow10((kk - 1) as nat));
        fr = fr / 10;
        kk = kk - 1;
    }
    let mut s = String::new();
    push_digits(&mut s, q);
    if kk > 0 {
        proof {
            reveal_strlit(".");
            lemma_digits_len_le(fr as nat, kk as nat);
        }
        s.append(".");
        let n = digit_count(fr);
        let ghost before = s@;
        let mut i: usize = 0;
        while i < kk as usize - n
            invariant
                n <= kk,
                i <= kk as usize - n,
                s@ == before + zeros(i as nat),
            decreases kk as usize - n - i,
        {
            proof {
                reveal_strlit("0");
            }
            s.append("0");
            assert(before + zeros((i + 1) as nat) =~= before + zeros(i as nat) + seq!['0']);
            i = i + 1;
        }
        push_digits(&mut s, fr);
        assert(s@ =~= digits(q as nat) + seq!['.'] + zeros((kk - n) as nat) + digits(fr as nat));
    } else {
        assert(s@ =~= digits(q as nat));
    }
    s
}

/// `r0 * 10^j < d * 10^17` where `r0 * 10^z < d` and `j <= z + 17`.
proof fn lemma_scaled_below(r0: int, d: int, z: nat, j: nat)
    requires
        d > 0,
        r0 >= 0,
        r0 * pow10(z) < d,
        j <= z + 17,
    ensures
        r0 * pow10(j) < d * 100_000_000_000_000_000,
        j >= z ==> r0 * pow10(j) < d * pow10((j - z) as nat),
{
    assert(pow10(17) == 100_000_000_000_000_000) by {
        reveal_with_fuel(pow10, 18);
    }
    if j >= z {
        let e = (j - z) as nat;
        lemma_pow10_add(z, e);
        lemma_pow10_add(e, 0);
        lemma_pow10_monotonic(e, 17);
        assert(r0 * pow10(j) < d * pow10(e)) by (nonlinear_arith)
            requires
                r0 * pow10(z) < d,
                pow10(j) == pow10(z) * pow10(e),
                pow10(e) >= 1,
        ;
        assert(d * pow10(e) <= d * pow10(17)) by (nonlinear_arith)
            requires
                pow10(e) <= pow10(17),
                d > 0,
        ;
    } else {
        lemma_pow10_monotonic(j, z);
        lemma_pow10_monotonic(0, 17);
        assert(pow10(0) == 1);
        assert(r0 * pow10(j) <= r0 * pow10(z)) by (nonlinear_arith)
            requires
                pow10(j) <= pow10(z),
                r0 >= 0,
        ;
        assert(d <= d * pow10(17)) by (nonlinear_arith)
            requires
                pow10(17) >= 1,
                d > 0,
        ;
    }
}

/// The integer computed from long division, plus one where the remainder
/// is at least half the divisor, is `a / d * 10^p` rounded half up.
proof fn lemma_rounding(a: nat, d: nat, ip: int, r0: int, p: nat, f: int, rem: int, up: int, r: int)
    requires
        d > 0,
        a == ip * d + r0,
        0 <= rem < d,
        f * d + rem == r0 * pow10(p),
        up == (if 2 * rem >= d { 1int } else { 0int }),
        r == ip * pow10(p) + f + up,
    ensures
        r == rounded(a, d, p),
{
    let s = pow10(p);
    let base = ip * s + f;
    assert(2 * a * s + d == (2 * d) * base + (2 * rem + d)) by (nonlinear_arith)
        requires
            a == ip * d + r0,
            f * d + rem == r0 * s,
            base == ip * s + f,
    ;
    if 2 * rem >= d {
        assert(2 * a * s + d == (base + 1) * (2 * d) + (2 * rem - d)) by (nonlinear_arith)
            requires
                2 * a * s + d == (2 * d) * base + (2 * rem + d),
        ;
        lemma_fundamental_div_mod_converse(2 * a * s + d, 2 * d as int, base + 1, 2 * rem - d);
    } else {
        assert(2 * a * s + d == base * (2 * d) + (2 * rem + d)) by (nonlinear_arith)
            requires
                2 * a * s + d == (2 * d) * base + (2 * rem + d),
        ;
        lemma_fundamental_div_mod_converse(2 * a * s + d, 2 * d as int, base, 2 * rem + d);
    }
}

impl Magnitude {
    /// The magnitude as text, e.g. `3`, `20.2`, `-1/3`, `inf`.
    pub fn to_string(&self) -> (r: String)
        ensures
            r@ == magnitude_text(self@),
    {
        let n = self.numerator();
        let d = self.denominator();
        if d == 0 {
            proof {
                reveal_strlit("inf");
                reveal_strlit("-inf");
                reveal_strlit("NaN");
            }
            return if n > 0 {
                String::from_str("inf")
            } else if n < 0 {
                String::from_str("-inf")
            } else {
                String::from_str("NaN")
            };
        }
        let mut s = String::new();
        if n < 0 {
            proof {
                reveal_strlit("-");
            }
            s.append("-");
        }
        let a: u128 = if n < 0 {
            (-n) as u128
        } else {
            n as u128
        };
        let du = d as u128;
        let ghost lead = s@;
        match fraction_text(a % du, du) {
            Some(f) => {
                push_digits(&mut s, a / du);
                if f.as_str().unicode_len() > 0 {
                    proof {
                        reveal_strlit(".");
                    }
                    s.append(".");
                    s.append(f.as_str());
                }
            },
            None => {
                let t = rounded_text(a, du);
                s.append(t.as_str());
            },
        }
        s
    }
}

} // verus!
