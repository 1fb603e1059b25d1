//! Decimal rendering of the integer quantities in the expense report.
//!
//! Fee totals are kept in lamports (the chain's smallest unit) as integers.
//! The report additionally shows them scaled to whole coins, which is a
//! division by 10^9 rendered with exactly nine fractional digits; that
//! rendering is done here with integer arithmetic.

use vstd::prelude::*;

verus! {

/// How many lamports make up one whole coin.
pub const LAMPORTS_PER_SOL: u64 = 1_000_000_000;

/// The character for the decimal digit `d`.
pub open spec fn digit_char(d: int) -> char {
    if d == 0 {
        '0'
    } else if d == 1 {
        '1'
    } else if d == 2 {
        '2'
    } else if d == 3 {
        '3'
    } else if d == 4 {
        '4'
    } else if d == 5 {
        '5'
    } else if d == 6 {
        '6'
    } else if d == 7 {
        '7'
    } else if d == 8 {
        '8'
    } else {
        '9'
    }
}

/// The usual decimal rendering of `n`: no sign, no leading zeros
/// (except for `n == 0`, which is rendered as "0").
pub open spec fn decimal_chars(n: nat) -> Seq<char>
    decreases n,
{
    if n < 10 {
        seq![digit_char(n as int)]
    } else {
        decimal_chars(n / 10) + seq![digit_char((n % 10) as int)]
    }
}

/// `k` zero characters.
pub open spec fn zero_chars(k: nat) -> Seq<char> {
    Seq::new(k, |i: int| '0')
}

/// `k` space characters.
pub open spec fn space_chars(k: nat) -> Seq<char> {
    Seq::new(k, |i: int| ' ')
}

/// The decimal rendering of `r` padded with zeros on the left to
/// exactly nine digits; meant for the fractional part of a lamport
/// amount, so `r` is expected below 10^9.
pub open spec fn fraction9_chars(r: nat) -> Seq<char> {
    if decimal_chars(r).len() <= 9 {
        zero_chars((9 - decimal_chars(r).len()) as nat) + decimal_chars(r)
    } else {
        decimal_chars(r)
    }
}

/// A lamport amount scaled to whole coins, with fixed nine-digit
/// fractional precision: `whole.fraction`.
pub open spec fn sol_chars(lamports: nat) -> Seq<char> {
    decimal_chars(lamports / (LAMPORTS_PER_SOL as nat)) + seq!['.'] + fraction9_chars(
        lamports % (LAMPORTS_PER_SOL as nat),
    )
}

/// `s` padded with spaces on the left to width `w` (unchanged if already
/// at least that wide).
pub open spec fn pad_left_chars(s: Seq<char>, w: nat) -> Seq<char> {
    if s.len() >= w {
        s
    } else {
        space_chars((w - s.len()) as nat) + s
    }
}

/// `s` padded with spaces on the right to width `w` (unchanged if already
/// at least that wide).
pub open spec fn pad_right_chars(s: Seq<char>, w: nat) -> Seq<char> {
    if s.len() >= w {
        s
    } else {
        s + space_chars((w - s.len()) as nat)
    }
}

/// `s` cut down to its first `w` characters (unchanged if shorter).
pub open spec fn truncate_chars(s: Seq<char>, w: nat) -> Seq<char> {
    if s.len() <= w {
        s
    } else {
        s.take(w as int)
    }
}

/// 10 to the power `k`.
pub open spec fn pow10(k: nat) -> nat
    decreases k,
{
    if k == 0 {
        1
    } else {
        10 * pow10((k - 1) as nat)
    }
}

/// A decimal rendering never has more digits than any power-of-ten bound
/// on the value: `n < 10^k` yields at most `k` digits.
pub proof fn lemma_decimal_len_bound(n: nat, k: nat)
    requires
        k >= 1,
        n < pow10(k),
    ensures
        decimal_chars(n).len() <= k,
    decreases k,
{
    if n < 10 {
    } else {
        assert(pow10(k) == 10 * pow10((k - 1) as nat));
        assert(n / 10 < pow10((k - 1) as nat)) by (nonlinear_arith)
            requires
                n < 10 * pow10((k - 1) as nat),
                n >= 10,
        ;
        assert(k - 1 >= 1) by {
            if k == 1 {
                assert(pow10(1nat) == 10);
            }
        }
        lemma_decimal_len_bound(n / 10, (k - 1) as nat);
    }
}

fn digit_str(d: u64) -> (s: &'static str)
    requires
        d < 10,
    ensures
        s@ =~= seq![digit_char(d as int)],
{
    proof {
        reveal_strlit("0");
        reveal_strlit("1");
        reveal_strlit("2");
        reveal_strlit("3");
        reveal_strlit("4");
        reveal_strlit("5");
        reveal_strlit("6");
        reveal_strlit("7");
        reveal_strlit("8");
        reveal_strlit("9");
    }
    match d {
        0 => "0",
        1 => "1",
        2 => "2",
        3 => "3",
        4 => "4",
        5 => "5",
        6 => "6",
        7 => "7",
        8 => "8",
        _ => "9",
    }
}

/// The decimal rendering of `n`, as a fresh string.
pub fn format_u64(n: u64) -> (s: String)
    ensures
        s@ == decimal_chars(n as nat),
    decreases n,
{
    if n < 10 {
        String::from_str(digit_str(n))
    } else {
        assert(n / 10 < n);
        let mut s = format_u64(n / 10);
        s.append(digit_str(n % 10));
        assert(s@ =~= decimal_chars(n as nat));
        s
    }
}

/// The decimal rendering of `n`, as a fresh string.
pub fn format_usize(n: usize) -> (s: String)
    ensures
        s@ == decimal_chars(n as nat),
{
    format_u64(n as u64)
}

/// The lamport amount `l` scaled to whole coins with nine fractional
/// digits, e.g. 8000 lamports render as "0.000008000".
pub fn format_sol(l: u64) -> (s: String)
    ensures
        s@ == sol_chars(l as nat),
{
    let whole: u64 = l / LAMPORTS_PER_SOL;
    let frac: u64 = l % LAMPORTS_PER_SOL;
    let mut s = format_u64(whole);
    proof {
        reveal_strlit(".");
    }
    s.append(".");
    let frac_str = format_u64(frac);
    let frac_len: usize = frac_str.as_str().unicode_len();
    proof {
        assert(pow10(9nat) == 1_000_000_000) by {
            reveal_with_fuel(pow10, 10);
        }
        lemma_decimal_len_bound(frac as nat, 9nat);
    }
    let mut pad: usize = 9 - frac_len;
    while pad > 0
        invariant
            pad <= 9 - frac_len,
            frac_len == decimal_chars(frac as nat).len(),
            s@ == decimal_chars((l / LAMPORTS_PER_SOL) as nat) + seq!['.'] + zero_chars(
                ((9 - frac_len) - pad) as nat,
            ),
        decreases pad,
    {
        s.append(digit_str(0));
        pad = pad - 1;
        assert(s@ =~= decimal_chars((l / LAMPORTS_PER_SOL) as nat) + seq!['.'] + zero_chars(
            ((9 - frac_len) - pad) as nat,
        ));
    }
    s.append(frac_str.as_str());
    assert(s@ =~= sol_chars(l as nat));
    s
}

/// `s` padded with spaces on the left to width `w`.
pub fn pad_left(s: &str, w: usize) -> (r: String)
    ensures
        r@ == pad_left_chars(s@, w as nat),
{
    let len: usize = s.unicode_len();
    let mut r = String::new();
    if len < w {
        let mut pad: usize = w - len;
        while pad > 0
            invariant
                pad <= w - len,
                r@ == space_chars(((w - len) - pad) as nat),
            decreases pad,
        {
            proof {
                reveal_strlit(" ");
            }
            r.append(" ");
            pad = pad - 1;
            assert(r@ =~= space_chars(((w - len) - pad) as nat));
        }
    }
    r.append(s);
    assert(r@ =~= pad_left_chars(s@, w as nat));
    r
}

/// `s` padded with spaces on the right to width `w`.
pub fn pad_right(s: &str, w: usize) -> (r: String)
    ensures
        r@ == pad_right_chars(s@, w as nat),
{
    let len: usize = s.unicode_len();
    let mut r = String::from_str(s);
    if len < w {
        let mut pad: usize = w - len;
        while pad > 0
            invariant
                pad <= w - len,
                r@ == s@ + space_chars(((w - len) - pad) as nat),
            decreases pad,
        {
            proof {
                reveal_strlit(" ");
            }
            r.append(" ");
            pad = pad - 1;
            assert(r@ =~= s@ + space_chars(((w - len) - pad) as nat));
        }
    }
    assert(r@ =~= pad_right_chars(s@, w as nat));
    r
}

/// The first `w` characters of `s`.
pub fn truncate_to(s: &str, w: usize) -> (r: String)
    ensures
        r@ == truncate_chars(s@, w as nat),
{
    let len: usize = s.unicode_len();
    if len <= w {
        String::from_str(s)
    } else {
        let t = s.substring_char(0, w);
        let r = String::from_str(t);
        assert(r@ =~= truncate_chars(s@, w as nat));
        r
    }
}

} // verus!
