//! Human-readable byte counts in decimal units ("1.50 KB").
//!
//! The quantity is shown with two decimals, computed exactly as the binary64
//! division `num as f64 / unit as f64` printed with `{:.2}` would: the
//! numerator is rounded to 53 significant bits, the quotient is rounded to the
//! nearest binary64 value, and that value is rounded to hundredths, ties to even.
//! All of it is carried out here on integers.
use vstd::prelude::*;
use crate::text::{decimal, digit_char, push_decimal, string_from_chars, digit_to_char};

verus! {

pub const KB: u64 = 1000;
pub const MB: u64 = 1000000;
pub const GB: u64 = 1000000000;
pub const TB: u64 = 1000000000000;
pub const PB: u64 = 1000000000000000;

/// 2 raised to `k`.
pub open spec fn two_to(k: nat) -> nat
    decreases k,
{
    if k == 0 {
        1
    } else {
        2 * two_to((k - 1) as nat)
    }
}

/// `a / b` rounded to the nearest integer, ties to the even neighbour.
pub open spec fn round_half_even(a: nat, b: nat) -> nat {
    let q = a / b;
    let r = a % b;
    if 2 * r < b {
        q
    } else if 2 * r > b {
        q + 1
    } else if q % 2 == 0 {
        q
    } else {
        q + 1
    }
}

/// The largest `l` with `2^l <= n` (0 for `n < 2`).
pub open spec fn floor_log2(n: nat) -> nat
    decreases n,
{
    if n < 2 {
        0
    } else {
        1 + floor_log2(n / 2)
    }
}

/// How many low-order bits of `n` do not fit in a 53-bit significand.
pub open spec fn excess_bits(n: nat) -> nat
    decreases n,
{
    if n < 0x20_0000_0000_0000 {
        0
    } else {
        1 + excess_bits(n / 2)
    }
}

/// The binary64 value nearest to the integer `n` (ties to an even significand), i.e. `n as f64`.
pub open spec fn f64_of_nat(n: nat) -> nat {
    let s = excess_bits(n);
    round_half_even(n, two_to(s)) * two_to(s)
}

/// For an integer `a` and a unit `u` with `1 <= a / u < 2^53`: one hundred times the
/// binary64 quotient nearest to `a / u`, rounded to an integer half-to-even. These are
/// the digits that `{:.2}` prints for `a as f64 / u as f64`.
pub open spec fn f64_quotient_hundredths(a: nat, u: nat) -> nat {
    let k = (52 - floor_log2(a / u)) as nat;
    round_half_even(100 * round_half_even(a * two_to(k), u), two_to(k))
}

/// `h / 100` written with exactly two decimals.
pub open spec fn two_decimals(h: nat) -> Seq<char> {
    decimal(h / 100).push('.').push(digit_char((h % 100) / 10)).push(digit_char(h % 10))
}

/// `num / unit` as two-decimal text followed by a space and the unit's name.
pub open spec fn scaled(num: nat, unit: nat, prefix: char) -> Seq<char> {
    two_decimals(f64_quotient_hundredths(f64_of_nat(num), unit)) + seq![' ', prefix, 'B']
}

/// The text that `format_bytes` gives for `num` bytes.
pub open spec fn format_bytes_spec(num: nat) -> Seq<char> {
    if num >= PB {
        scaled(num, PB as nat, 'P')
    } else if num >= TB {
        scaled(num, TB as nat, 'T')
    } else if num >= GB {
        scaled(num, GB as nat, 'G')
    } else if num >= MB {
        scaled(num, MB as nat, 'M')
    } else if num >= KB {
        scaled(num, KB as nat, 'K')
    } else {
        decimal(num) + seq![' ', 'B']
    }
}

proof fn lemma_two_to_adds(a: nat, b: nat)
    ensures
        two_to(a + b) == two_to(a) * two_to(b),
    decreases a,
{
    if a > 0 {
        let a1 = (a - 1) as nat;
        lemma_two_to_adds(a1, b);
        assert(two_to(a + b) == 2 * two_to(a1 + b));
        assert(two_to(a) == 2 * two_to(a1));
        assert(two_to(a) * two_to(b) == 2 * (two_to(a1) * two_to(b))) by (nonlinear_arith)
            requires two_to(a) == 2 * two_to(a1);
    } else {
        assert(two_to(0) == 1);
        assert(a + b == b);
    }
}

proof fn lemma_two_to_monotone(a: nat, b: nat)
    requires
        a <= b,
    ensures
        1 <= two_to(a) <= two_to(b),
    decreases b,
{
    if b > a {
        lemma_two_to_monotone(a, (b - 1) as nat);
    } else if a > 0 {
        lemma_two_to_monotone((a - 1) as nat, (a - 1) as nat);
    }
}

proof fn lemma_floor_log2_below(n: nat, j: nat)
    requires
        1 <= j,
        n < two_to(j),
    ensures
        floor_log2(n) < j,
    decreases j,
{
    if n >= 2 {
        if j == 1 {
            assert(two_to(1) == 2 * two_to(0));
        } else {
            assert(two_to(j) == 2 * two_to((j - 1) as nat));
            lemma_floor_log2_below(n / 2, (j - 1) as nat);
        }
    }
}

proof fn lemma_excess_bits_below(n: nat, j: nat)
    requires
        n < two_to(53 + j),
    ensures
        excess_bits(n) <= j,
    decreases j,
{
    lemma_two_to_53();
    if n >= 0x20_0000_0000_0000 {
        if j == 0 {
        } else {
            assert(two_to(53 + j) == 2 * two_to((53 + j - 1) as nat));
            lemma_excess_bits_below(n / 2, (j - 1) as nat);
        }
    }
}

proof fn lemma_two_to_53()
    ensures
        two_to(53) == 0x20_0000_0000_0000,
        two_to(64) == 0x1_0000_0000_0000_0000,
{
    reveal_with_fuel(two_to, 65);
}

/// The rounded quotient is at most one more than the plain one.
proof fn lemma_round_half_even_bound(a: nat, b: nat)
    requires
        b >= 1,
    ensures
        round_half_even(a, b) <= a / b + 1,
        round_half_even(a, b) * b <= a + b,
        a < round_half_even(a, b) * b + b,
        a / b <= a,
{
    let q = a / b;
    assert(q * b <= a) by (nonlinear_arith)
        requires q == a / b, b >= 1;
    assert(q <= a) by (nonlinear_arith)
        requires q * b <= a, b >= 1;
    let r = a % b;
    if b == 1 {
        assert(r == 0);
    }
    assert(a == q * b + r) by (nonlinear_arith)
        requires q == a / b, r == a % b, b >= 1;
    assert(r < b);
    if round_half_even(a, b) == q + 1 {
        assert(2 * r >= b);
        assert(a == q * b + r) by (nonlinear_arith)
            requires q == a / b, r == a % b, b >= 1;
        assert((q + 1) * b == q * b + b) by (nonlinear_arith);
        assert(r >= 1);
    }
}

fn two_to_exec(k: u32) -> (p: u128)
    requires
        k <= 52,
    ensures
        p == two_to(k as nat),
{
    let mut p: u128 = 1;
    let mut i: u32 = 0;
    while i < k
        invariant
            i <= k <= 52,
            p == two_to(i as nat),
        decreases k - i,
    {
        proof {
            lemma_two_to_monotone(i as nat, 52);
            lemma_two_to_53();
            assert(two_to(53) == 2 * two_to(52));
        }
        p = p * 2;
        i = i + 1;
    }
    p
}

fn round_half_even_exec(a: u128, b: u128) -> (r: u128)
    requires
        b >= 1,
        a < 0x8000_0000_0000_0000_0000_0000_0000_0000,
    ensures
        r == round_half_even(a as nat, b as nat),
{
    let q = a / b;
    let rem = a % b;
    proof {
        lemma_round_half_even_bound(a as nat, b as nat);
    }
    if rem < b - rem {
        q
    } else if rem > b - rem {
        q + 1
    } else if q % 2 == 0 {
        q
    } else {
        q + 1
    }
}

fn floor_log2_exec(n: u128) -> (l: u32)
    requires
        n < 0x1_0000_0000_0000_0000,
    ensures
        l == floor_log2(n as nat),
{
    let mut cur = n;
    let mut l: u32 = 0;
    proof {
        lemma_two_to_53();
        lemma_floor_log2_below(n as nat, 64);
    }
    while cur >= 2
        invariant
            l + floor_log2(cur as nat) == floor_log2(n as nat),
            floor_log2(n as nat) < 64,
        decreases cur,
    {
        cur = cur / 2;
        l = l + 1;
    }
    l
}

/// `n as f64` for an integer, returned as the integer it equals.
fn f64_of_u64(n: u64) -> (a: u128)
    ensures
        a == f64_of_nat(n as nat),
        a <= n + 2048,
        n < a + 2048,
{
    let mut s: u32 = 0;
    let mut cur: u64 = n;
    proof {
        lemma_two_to_53();
        lemma_two_to_adds(53, 11);
        lemma_excess_bits_below(n as nat, 11);
    }
    while cur >= 0x20_0000_0000_0000
        invariant
            s + excess_bits(cur as nat) == excess_bits(n as nat),
            s <= 11 - excess_bits(cur as nat),
        decreases cur,
    {
        proof {
            lemma_two_to_53();
            lemma_two_to_adds(53, 11);
            lemma_excess_bits_below(cur as nat, 11);
        }
        cur = cur / 2;
        s = s + 1;
    }
    let d = two_to_exec(s);
    proof {
        lemma_two_to_monotone(s as nat, 11);
        reveal_with_fuel(two_to, 12);
        lemma_round_half_even_bound(n as nat, d as nat);
    }
    let q = round_half_even_exec(n as u128, d);
    q * d
}

/// Two-decimal text of `num / unit` followed by " <prefix>B".
fn push_scaled(out: &mut Vec<char>, num: u64, unit: u64, prefix: char)
    requires
        1000 <= unit <= PB,
        num >= unit,
        num < 0x20_0000_0000_0000 || unit == PB,
        unit == PB || num / unit < 1000,
    ensures
        final(out)@ == old(out)@ + scaled(num as nat, unit as nat, prefix),
{
    let a = f64_of_u64(num);
    let ghost an = a as nat;
    proof {
        lemma_two_to_53();
        if num < 0x20_0000_0000_0000 {
            assert(excess_bits(num as nat) == 0);
            assert(two_to(0) == 1);
            assert(round_half_even(num as nat, 1) == num) by (nonlinear_arith);
            let r1 = round_half_even(num as nat, two_to(0));
            assert(r1 == num);
            assert(f64_of_nat(num as nat) == r1 * two_to(0));
            assert(r1 * two_to(0) == num) by (nonlinear_arith)
                requires r1 == num, two_to(0) == 1;
            assert(an == num);
        }
        assert(an >= unit);
        assert(an / (unit as nat) >= 1) by (nonlinear_arith)
            requires an >= unit, unit >= 1000;
        assert(an / (unit as nat) < 0x8000) by (nonlinear_arith)
            requires an <= num + 2048, num < 0x1_0000_0000_0000_0000, unit >= 1000,
                unit == PB || num / unit < 1000, num >= unit,
                num < 0x20_0000_0000_0000 ==> an == num;
    }
    let l = floor_log2_exec(a / (unit as u128));
    proof {
        assert(two_to(15) == 0x8000) by {
            reveal_with_fuel(two_to, 16);
        }
        lemma_floor_log2_below((an / unit as nat), 15);
    }
    let k = 52 - l;
    let p = two_to_exec(k);
    proof {
        lemma_two_to_monotone(k as nat, 52);
        assert(two_to(53) == 2 * two_to(52));
        assert(a * p < 0x40_0000_0000_0000_0000_0000_0000_0000) by (nonlinear_arith)
            requires a < 0x2_0000_0000_0000_0000, p <= 0x10_0000_0000_0000;
    }
    let m = round_half_even_exec(a * p, unit as u128);
    proof {
        lemma_round_half_even_bound((a * p) as nat, unit as nat);
        assert(m <= 0x40_0000_0000_0000_0000_0000_0000_0000);
    }
    let h = round_half_even_exec(100 * m, p);
    proof {
        lemma_round_half_even_bound((100 * m) as nat, p as nat);
    }
    push_decimal(out, h / 100);
    out.push('.');
    out.push(digit_to_char(((h % 100) / 10) as u8));
    out.push(digit_to_char((h % 10) as u8));
    out.push(' ');
    out.push(prefix);
    out.push('B');
    proof {
        assert(f64_quotient_hundredths(an, unit as nat) == h);
        assert(final(out)@ =~= old(out)@ + scaled(num as nat, unit as nat, prefix));
    }
}

/// Formats a byte count in decimal units: below 1000 as "N B", above as the
/// quotient by the largest unit (KB, MB, GB, TB, PB) that it reaches, with two decimals.
pub fn format_bytes(num: u64) -> (s: String)
    ensures
        s@ == format_bytes_spec(num as nat),
{
    let mut out: Vec<char> = Vec::new();
    if num >= PB {
        push_scaled(&mut out, num, PB, 'P');
    } else if num >= TB {
        push_scaled(&mut out, num, TB, 'T');
    } else if num >= GB {
        push_scaled(&mut out, num, GB, 'G');
    } else if num >= MB {
        push_scaled(&mut out, num, MB, 'M');
    } else if num >= KB {
        push_scaled(&mut out, num, KB, 'K');
    } else {
        push_decimal(&mut out, num as u128);
        out.push(' ');
        out.push('B');
    }
    proof {
        assert(out@ =~= format_bytes_spec(num as nat));
    }
    string_from_chars(&out)
}

} // verus!
