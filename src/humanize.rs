//! Short human-readable forms of byte counts and ages.
use vstd::prelude::*;
use vstd::string::*;

verus! {

pub open spec fn digit_char(d: nat) -> char {
    seq!['0', '1', '2', '3', '4', '5', '6', '7', '8', '9'][d as int]
}

/// The decimal digits of `n`, without leading zeros.
pub open spec fn decimal(n: nat) -> Seq<char>
    decreases n,
{
    if n < 10 {
        seq![digit_char(n)]
    } else {
        decimal(n / 10).push(digit_char(n % 10))
    }
}

/// `n / d` rounded to the nearest integer, halves to the even one.
pub open spec fn round_half_even(n: nat, d: nat) -> nat
    recommends
        d > 0,
{
    let q = n / d;
    let rem = n % d;
    if 2 * rem > d || (2 * rem == d && q % 2 == 1) {
        q + 1
    } else {
        q
    }
}

pub open spec fn pow1024(k: nat) -> nat
    decreases k,
{
    if k == 0 {
        1
    } else {
        1024 * pow1024((k - 1) as nat)
    }
}

/// The largest unit index from `k` on, up to 6, whose unit `n` reaches.
pub open spec fn unit_from(n: nat, k: nat) -> nat
    decreases 6 - k,
{
    if k < 6 && n >= pow1024(k + 1) {
        unit_from(n, k + 1)
    } else {
        k
    }
}

pub open spec fn unit_name(k: nat) -> Seq<char> {
    seq!["B"@, "KB"@, "MB"@, "GB"@, "TB"@, "PB"@, "EB"@][k as int]
}

/// `n` bytes in the largest unit of 1024 that it reaches (up to exabytes),
/// with one decimal: `1.5 KB`.
pub open spec fn spec_format_size(n: nat) -> Seq<char> {
    let k = unit_from(n, 0);
    let t = round_half_even(n * 10, pow1024(k));
    decimal(t / 10) + "."@ + decimal(t % 10) + " "@ + unit_name(k)
}

/// An age in seconds, in whole seconds, minutes, hours or days: `5min`.
pub open spec fn spec_format_last_modified(secs: nat) -> Seq<char> {
    if secs < 60 {
        decimal(secs) + "s"@
    } else if secs < 3600 {
        decimal(round_half_even(secs, 60)) + "min"@
    } else if secs < 86400 {
        decimal(round_half_even(secs, 3600)) + "h"@
    } else {
        decimal(round_half_even(secs, 86400)) + "d"@
    }
}

fn digit_str(d: u64) -> (r: &'static str)
    requires
        d < 10,
    ensures
        r@ == seq![digit_char(d as nat)],
{
    proof {
        reveal_strlit("0");
        reveal_strlit("1");
        reveal_strlit("2");
        reveal_strlit("3");
        reveal_strlit("4");
        reveal_strlit("5");
        reveal_strlit("6");
        reveal_strlit("7");
        reveal_strlit("8");
        reveal_strlit("9");
    }
    let r = match d {
        0 => "0",
        1 => "1",
        2 => "2",
        3 => "3",
        4 => "4",
        5 => "5",
        6 => "6",
        7 => "7",
        8 => "8",
        _ => "9",
    };
    assert(r@ =~= seq![digit_char(d as nat)]);
    r
}

/// Appends the decimal digits of `n`.
fn push_decimal(s: &mut String, n: u64)
    ensures
        final(s)@ == old(s)@ + decimal(n as nat),
    decreases n,
{
    if n >= 10 {
        push_decimal(s, n / 10);
    }
    s.append(digit_str(n % 10));
    proof {
        if n >= 10 {
            assert(decimal(n as nat) == decimal((n / 10) as nat).push(digit_char((n % 10) as nat)));
        }
    }
    assert(final(s)@ =~= old(s)@ + decimal(n as nat));
}

fn round_half_even_exec(n: u128, d: u128) -> (r: u128)
    requires
        d > 0,
        n / d < u128::MAX,
    ensures
        r == round_half_even(n as nat, d as nat),
{
    let q = n / d;
    let rem = n % d;
    if rem > d - rem || (rem == d - rem && q % 2 == 1) {
        q + 1
    } else {
        q
    }
}

fn unit_str(k: usize) -> (r: &'static str)
    requires
        k < 7,
    ensures
        r@ == unit_name(k as nat),
{
    match k {
        0 => "B",
        1 => "KB",
        2 => "MB",
        3 => "GB",
        4 => "TB",
        5 => "PB",
        _ => "EB",
    }
}

proof fn lemma_pow1024_values()
    ensures
        pow1024(0) == 1,
        pow1024(1) == 0x400,
        pow1024(2) == 0x10_0000,
        pow1024(3) == 0x4000_0000,
        pow1024(4) == 0x100_0000_0000,
        pow1024(5) == 0x4_0000_0000_0000,
        pow1024(6) == 0x1000_0000_0000_0000,
{
    reveal_with_fuel(pow1024, 7);
}

/// The size `size` (in bytes) as text, e.g. `1.5 KB`.
pub fn format_size(size: u64) -> (r: String)
    ensures
        r@ == spec_format_size(size as nat),
{
    let mut k: usize = 0;
    let mut div: u64 = 1;
    proof {
        lemma_pow1024_values();
    }
    while k < 6 && div * 1024 <= size
        invariant
            k <= 6,
            div as nat == pow1024(k as nat),
            unit_from(size as nat, 0) == unit_from(size as nat, k as nat),
            k < 6 ==> div <= 0x4_0000_0000_0000,
        decreases 6 - k,
    {
        proof {
            assert(pow1024((k + 1) as nat) == 1024 * pow1024(k as nat));
        }
        div = div * 1024;
        k = k + 1;
        proof {
            lemma_pow1024_values();
            assert(k == 1 || k == 2 || k == 3 || k == 4 || k == 5 || k == 6);
        }
    }
    proof {
        if k < 6 {
            assert(pow1024((k + 1) as nat) == 1024 * pow1024(k as nat));
        }
        assert(unit_from(size as nat, k as nat) == k);
        lemma_pow1024_values();
        assert(k == 0 || k == 1 || k == 2 || k == 3 || k == 4 || k == 5 || k == 6);
    }
    let scaled: u128 = (size as u128) * 10;
    let t = round_half_even_exec(scaled, div as u128);
    proof {
        assert(t <= scaled + 1) by (nonlinear_arith)
            requires
                t <= scaled / (div as u128) + 1,
                div >= 1,
        {
        }
    }
    let mut r = String::new();
    push_decimal(&mut r, (t / 10) as u64);
    r.append(".");
    push_decimal(&mut r, (t % 10) as u64);
    r.append(" ");
    r.append(unit_str(k));
    r
}

/// An age `secs` (in seconds) as text, e.g. `5min`.
pub fn format_last_modified(secs: u64) -> (r: String)
    ensures
        r@ == spec_format_last_modified(secs as nat),
{
    let mut r = String::new();
    if secs < 60 {
        push_decimal(&mut r, secs);
        r.append("s");
    } else if secs < 3600 {
        push_decimal(&mut r, round_half_even_exec(secs as u128, 60) as u64);
        r.append("min");
    } else if secs < 86400 {
        push_decimal(&mut r, round_half_even_exec(secs as u128, 3600) as u64);
        r.append("h");
    } else {
        push_decimal(&mut r, round_half_even_exec(secs as u128, 86400) as u64);
        r.append("d");
    }
    r
}

} // verus!
