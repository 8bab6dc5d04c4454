//! Sizes as people read them.

use vstd::prelude::*;

use crate::text;
use crate::text::push_decimal;

verus! {

/// `n / d` rounded to the nearest whole number, halves to the even one.
pub open spec fn rounded(n: nat, d: nat) -> nat {
    let q = n / d;
    let r = n % d;
    if 2 * r > d || (2 * r == d && q % 2 == 1) {
        q + 1
    } else {
        q
    }
}

/// How far apart numbers with 53 binary digits stand around `bytes`: `step`
/// where it is below `limit`, else twice as far for each doubling.
pub open spec fn spacing(bytes: nat, limit: nat, step: nat) -> nat
    decreases
            if limit <= bytes {
                bytes + 1 - limit
            } else {
                0
            },
{
    if limit == 0 || bytes < limit {
        step
    } else {
        spacing(bytes, 2 * limit, 2 * step)
    }
}

/// `bytes` rounded to 53 binary digits.
pub open spec fn to_53_digits(bytes: nat) -> nat {
    let step = spacing(bytes, 0x20_0000_0000_0000, 1);
    rounded(bytes, step) * step
}

/// `bytes` in units: with one decimal below ten units, else whole.
pub open spec fn in_units(bytes: nat, unit: nat, name: Seq<char>) -> Seq<char> {
    if bytes < 10 * unit {
        let tenths = rounded(10 * bytes, unit);
        text::decimal(tenths / 10).push('.').push(text::digit(tenths % 10)) + name
    } else {
        text::decimal(rounded(bytes, unit)) + name
    }
}

/// A short size: bytes below a kilobyte, else kilobytes, megabytes or
/// gigabytes, with 1024 of each in the next.
pub open spec fn compact(bytes: nat) -> Seq<char> {
    let b = to_53_digits(bytes);
    if b < 1024 {
        text::decimal(bytes) + " B"@
    } else if b < 1024 * 1024 {
        in_units(b, 1024, " KB"@)
    } else if b < 1024 * 1024 * 1024 {
        in_units(b, 1024 * 1024, " MB"@)
    } else {
        in_units(b, 1024 * 1024 * 1024, " GB"@)
    }
}

fn round_div(n: u128, d: u128) -> (q: u128)
    requires
        0 < d < 0x1_0000_0000_0000_0000,
        n < 0x100_0000_0000_0000_0000,
    ensures
        q == rounded(n as nat, d as nat),
        n / d <= q <= n / d + 1,
{
    let q: u128 = n / d;
    let r: u128 = n % d;
    proof {
        assert(q <= n) by (nonlinear_arith)
            requires
                d >= 1,
                q == n / d,
        ;
    }
    if 2 * r > d || (2 * r == d && q % 2 == 1) {
        q + 1
    } else {
        q
    }
}

fn round_to_53_digits(bytes: u64) -> (b: u128)
    ensures
        b == to_53_digits(bytes as nat),
        b < 0x1_0000_0000_0000_1000,
        b + 4096 >= bytes,
{
    let n: u128 = bytes as u128;
    let mut limit: u128 = 0x20_0000_0000_0000;
    let mut step: u128 = 1;
    while n >= limit
        invariant
            n == bytes,
            limit == step * 0x20_0000_0000_0000,
            1 <= step < 4096,
            spacing(bytes as nat, 0x20_0000_0000_0000, 1) == spacing(
                bytes as nat,
                limit as nat,
                step as nat,
            ),
        decreases
                if limit <= n {
                    n + 1 - limit
                } else {
                    0
                },
    {
        limit = limit * 2;
        step = step * 2;
    }
    let q: u128 = round_div(n, step);
    proof {
        lemma_round_bound(n as int, step as int, q as int);
    }
    q * step
}

proof fn lemma_round_bound(n: int, s: int, q: int)
    requires
        0 <= n,
        1 <= s,
        0 <= n / s <= q <= n / s + 1,
    ensures
        n - s <= q * s <= n + s,
{
    assert(n - s <= (n / s) * s <= n) by (nonlinear_arith)
        requires
            1 <= s,
            0 <= n,
    ;
    assert((n / s) * s <= q * s <= (n / s + 1) * s) by (nonlinear_arith)
        requires
            n / s <= q <= n / s + 1,
            1 <= s,
    ;
    assert((n / s + 1) * s == (n / s) * s + s) by (nonlinear_arith);
}

/// Ten to the power `digits`.
spec fn ten_to(digits: nat) -> nat
    decreases digits,
{
    if digits == 0 {
        1
    } else {
        10 * ten_to((digits - 1) as nat)
    }
}

proof fn lemma_decimal_short(n: nat, digits: nat)
    requires
        n < ten_to(digits),
        digits > 0,
    ensures
        text::decimal(n).len() <= digits,
    decreases digits,
{
    if n >= 10 {
        reveal_with_fuel(ten_to, 2);
        lemma_decimal_short(n / 10, (digits - 1) as nat);
    }
}

proof fn lemma_twelve_digits(n: nat)
    requires
        n < 1_000_000_000_000,
    ensures
        text::decimal(n).len() <= 12,
{
    reveal_with_fuel(ten_to, 13);
    lemma_decimal_short(n, 12);
}

fn push_units(out: &mut String, bytes: u128, unit: u128, name: &str)
    requires
        0 < unit <= 0x4000_0000,
        bytes < 0x1_0000_0000_0000_1000,
        bytes / unit < 0xe0_0000_0000,
    ensures
        final(out)@ == old(out)@ + in_units(bytes as nat, unit as nat, name@),
        in_units(bytes as nat, unit as nat, name@).len() <= 12 + name@.len(),
{
    let ghost before = out@;
    if bytes < 10 * unit {
        let tenths: u128 = round_div(10 * bytes, unit);
        proof {
            assert((10 * bytes) / (unit as int) < 100) by (nonlinear_arith)
                requires
                    bytes < 10 * unit,
                    unit > 0,
            ;
        }
        proof {
            assert(tenths / 10 <= 10);
            reveal_with_fuel(ten_to, 3);
            lemma_decimal_short((tenths / 10) as nat, 2);
        }
        push_decimal(out, (tenths / 10) as u64);
        out.push('.');
        out.push((48u8 + (tenths % 10) as u8) as char);
        out.append(name);
        assert(out@ =~= before + in_units(bytes as nat, unit as nat, name@));
    } else {
        let whole: u128 = round_div(bytes, unit);
        proof {
            lemma_twelve_digits(whole as nat);
        }
        push_decimal(out, whole as u64);
        out.append(name);
        assert(out@ =~= before + in_units(bytes as nat, unit as nat, name@));
    }
}

/// Format `bytes` into a short label for small tiles: `1.5 GB`, `562 MB`,
/// `4.4 GB`, `512 KB`. It never has more than fifteen characters.
pub fn fmt_size_compact(bytes: u64) -> (label: String)
    ensures
        label@ == compact(bytes as nat),
        label@.len() <= 15,
{
    let mut label = String::new();
    let b: u128 = round_to_53_digits(bytes);
    proof {
        reveal_strlit(" B");
        reveal_strlit(" KB");
        reveal_strlit(" MB");
        reveal_strlit(" GB");
    }
    if b < 1024 {
        proof {
            lemma_twelve_digits(bytes as nat);
        }
        push_decimal(&mut label, bytes);
        label.append(" B");
        assert(label@ =~= compact(bytes as nat));
    } else if b < 1024 * 1024 {
        push_units(&mut label, b, 1024, " KB");
        assert(label@ =~= compact(bytes as nat));
    } else if b < 1024 * 1024 * 1024 {
        push_units(&mut label, b, 1024 * 1024, " MB");
        assert(label@ =~= compact(bytes as nat));
    } else {
        push_units(&mut label, b, 1024 * 1024 * 1024, " GB");
        assert(label@ =~= compact(bytes as nat));
    }
    label
}

/// Rounding gives the nearest whole number: twice what is left is no more than the divisor,
/// and where two are equally near, it is the even one.
pub proof fn lemma_rounded(n: nat, d: nat)
    requires
        d > 0,
    ensures
        2 * (n - rounded(n, d) * d) <= d,
        2 * (rounded(n, d) * d - n) <= d,
        2 * (n - rounded(n, d) * d) == d || 2 * (rounded(n, d) * d - n) == d ==> rounded(n, d) % 2
            == 0,
{
    let q = n / d;
    let r = n % d;
    vstd::arithmetic::div_mod::lemma_fundamental_div_mod(n as int, d as int);
    assert(0 <= r < d);
    assert(q * d == d * q) by (nonlinear_arith);
    assert((q + 1) * d == d * q + d) by (nonlinear_arith);
}

/// What is below 2^53 is not rounded.
proof fn lemma_exact_below(bytes: nat)
    requires
        bytes < 0x20_0000_0000_0000,
    ensures
        to_53_digits(bytes) == bytes,
{
    assert(spacing(bytes, 0x20_0000_0000_0000, 1) == 1);
    assert(bytes / 1 == bytes && bytes % 1 == 0);
    assert(rounded(bytes, 1) == bytes);
}

/// A label in a unit is the nearest that it can say: below ten units the nearest tenth,
/// else the nearest whole number. The unit is the largest of which there is at least one.
pub proof fn lemma_compact_near(bytes: nat, unit: nat, name: Seq<char>)
    requires
        (unit == 1024 && name == " KB"@ && 1024 <= bytes < 1024 * 1024) || (unit == 1024 * 1024
            && name == " MB"@ && 1024 * 1024 <= bytes < 1024 * 1024 * 1024) || (unit == 1024 * 1024
            * 1024 && name == " GB"@ && 1024 * 1024 * 1024 <= bytes < 0x20_0000_0000_0000),
    ensures
        bytes < 10 * unit ==> exists|tenths: nat|
            compact(bytes) == #[trigger] text::decimal(tenths / 10).push('.').push(
                text::digit(tenths % 10),
            ) + name && 2 * (10 * bytes - tenths * unit) <= unit && 2 * (tenths * unit - 10
                * bytes) <= unit,
        bytes >= 10 * unit ==> exists|whole: nat|
            compact(bytes) == #[trigger] text::decimal(whole) + name && 2 * (bytes - whole * unit)
                <= unit && 2 * (whole * unit - bytes) <= unit,
{
    lemma_exact_below(bytes);
    lemma_rounded(10 * bytes, unit);
    lemma_rounded(bytes, unit);
    if bytes < 10 * unit {
        let tenths = rounded(10 * bytes, unit);
        assert(compact(bytes) == text::decimal(tenths / 10).push('.').push(
            text::digit(tenths % 10),
        ) + name);
    } else {
        let whole = rounded(bytes, unit);
        assert(compact(bytes) == text::decimal(whole) + name);
    }
}

/// Fewer bytes than a kilobyte are written as they are.
pub proof fn lemma_compact_bytes(bytes: nat)
    requires
        bytes < 1024,
    ensures
        compact(bytes) == text::decimal(bytes) + " B"@,
{
    lemma_exact_below(bytes);
}

} // verus!
