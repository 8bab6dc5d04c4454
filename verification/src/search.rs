//! Name and on-disk size filters, compiled once per search edit.

use vstd::prelude::*;

use crate::text;
use crate::text::{
    chars_of, contains_case_insensitive, is_white, owned, string_from, to_lower,
};

verus! {

/// How a size is compared.
#[derive(Clone, Copy, Debug, PartialEq, Eq, Structural)]
pub enum Comparison {
    Less,
    LessEqual,
    Equal,
    GreaterEqual,
    Greater,
}

/// One condition of a query.
#[derive(Debug)]
pub enum Term {
    Name(String),
    Glob(Vec<char>),
    Size(Comparison, u64),
}

/// A search: the conditions that a file has to meet.
#[derive(Debug)]
pub struct Query {
    terms: Vec<Term>,
}

/// A condition as a mathematical value.
pub enum Condition {
    Name(Seq<char>),
    Glob(Seq<char>),
    Size(Comparison, u64),
}

impl View for Term {
    type V = Condition;

    open spec fn view(&self) -> Condition {
        match self {
            Term::Name(name) => Condition::Name(name@),
            Term::Glob(pattern) => Condition::Glob(pattern@),
            Term::Size(comparison, bytes) => Condition::Size(*comparison, *bytes),
        }
    }
}

impl View for Query {
    type V = Seq<Condition>;

    closed spec fn view(&self) -> Seq<Condition> {
        term_views(self.terms@)
    }
}

spec fn term_views(terms: Seq<Term>) -> Seq<Condition> {
    terms.map_values(|term: Term| term@)
}

// Wildcards.

/// Whether one pattern character stands for one name character.
pub open spec fn stands_for(p: char, c: char) -> bool {
    p == '?' || text::lower(p) == text::lower(c)
}

/// Whether the whole name fits the pattern: `*` stands for any characters, `?`
/// for one, and any other character for itself, ASCII case aside.
pub open spec fn fits(pattern: Seq<char>, name: Seq<char>) -> bool
    decreases pattern.len(), name.len(),
{
    if pattern.len() == 0 {
        name.len() == 0
    } else if pattern[0] == '*' {
        fits(pattern.skip(1), name) || (name.len() > 0 && fits(pattern, name.skip(1)))
    } else {
        name.len() > 0 && stands_for(pattern[0], name[0]) && fits(pattern.skip(1), name.skip(1))
    }
}

/// How many characters of the pattern are not `*`.
spec fn needed(pattern: Seq<char>) -> nat
    decreases pattern.len(),
{
    if pattern.len() == 0 {
        0
    } else {
        needed(pattern.skip(1)) + if pattern[0] == '*' {
            0nat
        } else {
            1nat
        }
    }
}

proof fn lemma_fits_needed(pattern: Seq<char>, name: Seq<char>)
    requires
        fits(pattern, name),
    ensures
        name.len() >= needed(pattern),
    decreases pattern.len(), name.len(),
{
    if pattern.len() > 0 {
        if pattern[0] == '*' {
            if fits(pattern.skip(1), name) {
                lemma_fits_needed(pattern.skip(1), name);
            } else {
                lemma_fits_needed(pattern, name.skip(1));
            }
        } else {
            lemma_fits_needed(pattern.skip(1), name.skip(1));
        }
    }
}

/// A leading star takes in any characters.
proof fn lemma_star_absorbs(pattern: Seq<char>, name: Seq<char>, k: int)
    requires
        pattern.len() > 0,
        pattern[0] == '*',
        0 <= k <= name.len(),
        fits(pattern, name.skip(k)),
    ensures
        fits(pattern, name),
    decreases k,
{
    if k == 0 {
        assert(name.skip(0) =~= name);
    } else {
        assert(name.skip(k) =~= name.skip(1).skip(k - 1));
        lemma_star_absorbs(pattern, name.skip(1), k - 1);
    }
}

/// Whether the pattern characters `from..to`, none of them a star, stand for
/// the name characters from `at` on.
spec fn literal(pattern: Seq<char>, from: int, to: int, name: Seq<char>, at: int) -> bool {
    &&& 0 <= from <= to <= pattern.len()
    &&& 0 <= at
    &&& at + (to - from) <= name.len()
    &&& forall|k: int|
        from <= k < to ==> #[trigger] pattern[k] != '*' && stands_for(
            pattern[k],
            name[at + (k - from)],
        )
}

/// Characters that stand for themselves can be dropped on both sides.
proof fn lemma_literal(pattern: Seq<char>, from: int, to: int, name: Seq<char>, at: int)
    requires
        literal(pattern, from, to, name, at),
    ensures
        fits(pattern.skip(from), name.skip(at)) == fits(
            pattern.skip(to),
            name.skip(at + (to - from)),
        ),
    decreases to - from,
{
    if from < to {
        assert(pattern[from] != '*' && stands_for(pattern[from], name[at]));
        assert(pattern.skip(from)[0] == pattern[from]);
        assert(name.skip(at)[0] == name[at]);
        assert(pattern.skip(from).skip(1) =~= pattern.skip(from + 1));
        assert(name.skip(at).skip(1) =~= name.skip(at + 1));
        assert(literal(pattern, from + 1, to, name, at + 1)) by {
            assert forall|k: int| from + 1 <= k < to implies #[trigger] pattern[k] != '*'
                && stands_for(pattern[k], name[at + 1 + (k - (from + 1))]) by {
                assert(at + 1 + (k - (from + 1)) == at + (k - from));
            }
        }
        lemma_literal(pattern, from + 1, to, name, at + 1);
    }
}

/// Where a name fits a pattern that begins with literal characters, it begins
/// with what they stand for.
proof fn lemma_literal_prefix(pattern: Seq<char>, from: int, to: int, name: Seq<char>, at: int)
    requires
        0 <= from <= to <= pattern.len(),
        0 <= at <= name.len(),
        forall|k: int| from <= k < to ==> #[trigger] pattern[k] != '*',
        fits(pattern.skip(from), name.skip(at)),
    ensures
        at + (to - from) <= name.len(),
        fits(pattern.skip(to), name.skip(at + (to - from))),
    decreases to - from,
{
    if from < to {
        assert(pattern.skip(from)[0] == pattern[from]);
        assert(pattern[from] != '*');
        assert(pattern.skip(from).skip(1) =~= pattern.skip(from + 1));
        assert(name.skip(at).skip(1) =~= name.skip(at + 1));
        lemma_literal_prefix(pattern, from + 1, to, name, at + 1);
    }
}

/// A star at `s` and literal characters up to a further star at `i`: taking
/// the first place where the literal characters fit loses nothing.
proof fn lemma_next_star(pattern: Seq<char>, s: int, i: int, name: Seq<char>, r: int)
    requires
        0 <= s < i < pattern.len(),
        pattern[s] == '*',
        pattern[i] == '*',
        literal(pattern, s + 1, i, name, r),
    ensures
        fits(pattern.skip(s), name.skip(r)) == fits(
            pattern.skip(i),
            name.skip(r + (i - (s + 1))),
        ),
{
    let q = r + (i - (s + 1));
    lemma_literal(pattern, s + 1, i, name, r);
    assert(pattern.skip(s).skip(1) =~= pattern.skip(s + 1));
    assert(pattern.skip(s)[0] == '*');
    if fits(pattern.skip(s), name.skip(r)) {
        lemma_star_somewhere(pattern.skip(s), name.skip(r));
        let k = choose|k: int|
            0 <= k <= name.skip(r).len() && #[trigger] fits(
                pattern.skip(s).skip(1),
                name.skip(r).skip(k),
            );
        assert(name.skip(r).skip(k) =~= name.skip(r + k));
        lemma_literal_prefix(pattern, s + 1, i, name, r + k);
        let rest = name.skip(q);
        assert(name.skip(r + k + (i - (s + 1))) =~= rest.skip(k));
        assert(pattern.skip(i)[0] == '*');
        lemma_star_absorbs(pattern.skip(i), rest, k);
    }
}

proof fn lemma_star_somewhere(pattern: Seq<char>, name: Seq<char>)
    requires
        pattern.len() > 0,
        pattern[0] == '*',
        fits(pattern, name),
    ensures
        exists|k: int| 0 <= k <= name.len() && #[trigger] fits(pattern.skip(1), name.skip(k)),
    decreases name.len(),
{
    if fits(pattern.skip(1), name) {
        assert(name.skip(0) =~= name);
        assert(fits(pattern.skip(1), name.skip(0)));
    } else {
        lemma_star_somewhere(pattern, name.skip(1));
        let k = choose|k: int|
            0 <= k <= name.skip(1).len() && #[trigger] fits(pattern.skip(1), name.skip(1).skip(k));
        assert(name.skip(1).skip(k) =~= name.skip(k + 1));
        assert(fits(pattern.skip(1), name.skip(k + 1)));
    }
}

spec fn all_stars(pattern: Seq<char>) -> bool {
    forall|k: int| 0 <= k < pattern.len() ==> #[trigger] pattern[k] == '*'
}

proof fn lemma_fits_empty(pattern: Seq<char>)
    ensures
        fits(pattern, Seq::empty()) == all_stars(pattern),
        needed(pattern) == 0 <==> all_stars(pattern),
    decreases pattern.len(),
{
    if pattern.len() > 0 {
        lemma_fits_empty(pattern.skip(1));
        let rest = pattern.skip(1);
        if all_stars(pattern) {
            assert forall|k: int| 0 <= k < rest.len() implies #[trigger] rest[k] == '*' by {
                assert(pattern[k + 1] == '*');
            }
        }
        if pattern[0] == '*' && all_stars(rest) {
            assert forall|k: int| 0 <= k < pattern.len() implies #[trigger] pattern[k] == '*' by {
                if k > 0 {
                    assert(rest[k - 1] == '*');
                }
            }
        }
    }
}

proof fn lemma_needed_literal(pattern: Seq<char>, from: int, to: int)
    requires
        0 <= from <= to <= pattern.len(),
        forall|k: int| from <= k < to ==> #[trigger] pattern[k] != '*',
    ensures
        needed(pattern.skip(from)) == (to - from) + needed(pattern.skip(to)),
    decreases to - from,
{
    if from < to {
        assert(pattern.skip(from)[0] == pattern[from]);
        assert(pattern[from] != '*');
        assert(pattern.skip(from).skip(1) =~= pattern.skip(from + 1));
        lemma_needed_literal(pattern, from + 1, to);
    }
}

/// Whether the whole name fits the pattern. Greedy, without recursion: after a
/// mismatch the last star takes in one more character.
pub fn glob_matches(pattern: &[char], name: &str) -> (found: bool)
    ensures
        found == fits(pattern@, name@),
{
    let chars = chars_of(name);
    let ghost p = pattern@;
    let ghost n = name@;
    let mut index: usize = 0;
    let mut pos: usize = 0;
    let mut starred: bool = false;
    let mut star: usize = 0;
    let mut retry: usize = 0;
    proof {
        assert(p.skip(0) =~= p && n.skip(0) =~= n);
    }
    while pos < chars.len()
        invariant
            p == pattern@,
            n == name@,
            chars@ == n,
            index <= p.len(),
            retry <= pos <= n.len(),
            starred ==> star < index && p[star as int] == '*',
            starred ==> fits(p, n) == fits(p.skip(star as int), n.skip(retry as int)),
            starred ==> literal(p, star + 1, index as int, n, retry as int),
            starred ==> pos == retry + (index - (star + 1)),
            p.skip(0) == p,
            n.skip(0) == n,
            !starred ==> retry == 0 && literal(p, 0, index as int, n, 0) && pos == index,
        decreases n.len() - retry, p.len() - index,
    {
        let at_star: bool = index < pattern.len() && pattern[index] == '*';
        let at_match: bool = index < pattern.len() && (pattern[index] == '?' || to_lower(
            pattern[index],
        ) == to_lower(chars[pos]));
        if at_star {
            proof {
                if starred {
                    lemma_next_star(p, star as int, index as int, n, retry as int);
                } else {
                    lemma_literal(p, 0, index as int, n, 0);
                }
            }
            starred = true;
            star = index;
            index += 1;
            retry = pos;
        } else if at_match {
            pos += 1;
            index += 1;
        } else if starred {
            proof {
                let here = p.skip(star as int);
                let left = n.skip(retry as int);
                assert(here[0] == '*');
                assert(here.skip(1) =~= p.skip(star + 1));
                assert(left.skip(1) =~= n.skip(retry + 1));
                lemma_literal(p, star + 1, index as int, n, retry as int);
                let rest = p.skip(index as int);
                let more = n.skip(pos as int);
                assert(more.len() > 0 && more[0] == n[pos as int]);
                if index < p.len() {
                    assert(rest[0] == p[index as int]);
                }
                assert(!fits(rest, more));
            }
            retry += 1;
            pos = retry;
            index = star + 1;
        } else {
            proof {
                lemma_literal(p, 0, index as int, n, 0);
                let rest = p.skip(index as int);
                let more = n.skip(pos as int);
                assert(more.len() > 0 && more[0] == n[pos as int]);
                if index < p.len() {
                    assert(rest[0] == p[index as int]);
                }
                assert(!fits(rest, more));
            }
            return false;
        }
    }
    let ghost rest = p.skip(index as int);
    let mut k: usize = index;
    while k < pattern.len() && pattern[k] == '*'
        invariant
            index <= k <= p.len(),
            p == pattern@,
            forall|j: int| index <= j < k ==> #[trigger] p[j] == '*',
        decreases p.len() - k,
    {
        k += 1;
    }
    let all: bool = k == pattern.len();
    proof {
        assert(all == all_stars(rest)) by {
            if all {
                assert forall|j: int| 0 <= j < rest.len() implies #[trigger] rest[j] == '*' by {
                    assert(p[index + j] == '*');
                }
            } else {
                assert(rest[k - index] == p[k as int]);
            }
        }
        assert(n.skip(pos as int) =~= Seq::<char>::empty());
        lemma_fits_empty(rest);
        if starred {
            let here = p.skip(star as int);
            let left = n.skip(retry as int);
            assert(here[0] == '*');
            assert(here.skip(1) =~= p.skip(star + 1));
            lemma_literal(p, star + 1, index as int, n, retry as int);
            if !all && fits(here, left) {
                lemma_needed_literal(p, star + 1, index as int);
                lemma_fits_needed(here, left);
            }
        } else {
            lemma_literal(p, 0, index as int, n, 0);
        }
    }
    all
}

// Sizes.

/// Whether `c` is one of the digits 0 to 9.
pub open spec fn is_digit(c: char) -> bool {
    '0' <= c && c <= '9'
}

/// The number written by decimal digits.
pub open spec fn digits_value(digits: Seq<char>) -> nat
    decreases digits.len(),
{
    if digits.len() == 0 {
        0
    } else {
        digits_value(digits.drop_last()) * 10 + (digits.last() as nat - '0' as nat) as nat
    }
}

/// Ten to the power `n`.
pub open spec fn pow10(n: nat) -> nat
    decreases n,
{
    if n == 0 {
        1
    } else {
        10 * pow10((n - 1) as nat)
    }
}

/// Where the digits and dots at the beginning end.
pub open spec fn number_end(input: Seq<char>, from: int) -> int
    decreases input.len() - from,
{
    if from >= input.len() || !(is_digit(input[from]) || input[from] == '.') {
        from
    } else {
        number_end(input, from + 1)
    }
}

/// Where the first dot stands; the length where there is none.
pub open spec fn first_dot(number: Seq<char>, from: int) -> int
    decreases number.len() - from,
{
    if from >= number.len() || number[from] == '.' {
        from
    } else {
        first_dot(number, from + 1)
    }
}

/// How many bytes a unit stands for.
pub open spec fn unit_bytes(unit: Seq<char>) -> Option<nat> {
    if unit == ""@ || unit == "b"@ {
        Some(1)
    } else if unit == "k"@ || unit == "kb"@ {
        Some(1_000)
    } else if unit == "m"@ || unit == "mb"@ {
        Some(1_000_000)
    } else if unit == "g"@ || unit == "gb"@ {
        Some(1_000_000_000)
    } else if unit == "t"@ || unit == "tb"@ {
        Some(1_000_000_000_000)
    } else if unit == "kib"@ {
        Some(1024)
    } else if unit == "mib"@ {
        Some(1024 * 1024)
    } else if unit == "gib"@ {
        Some(1024 * 1024 * 1024)
    } else if unit == "tib"@ {
        Some(1024 * 1024 * 1024 * 1024)
    } else {
        None
    }
}

/// The bytes that `whole.fraction` units are. `None` where that is not a whole
/// number of bytes, or too large to hold; the digits of the fraction times the
/// unit, and the power of ten that they are divided by, must fit 128 bits.
pub open spec fn exact_bytes(whole: Seq<char>, fraction: Seq<char>, unit: nat) -> Option<u64> {
    let numerator = digits_value(fraction) * unit;
    let divisor = pow10(fraction.len());
    if divisor > u128::MAX || numerator > u128::MAX || numerator % divisor != 0 {
        None
    } else {
        let bytes = digits_value(whole) * unit + numerator / divisor;
        if bytes <= u64::MAX {
            Some(bytes as u64)
        } else {
            None
        }
    }
}

/// The size that `input` writes: a decimal number, which may have a fraction,
/// and a unit, in any ASCII case.
pub open spec fn size_value(input: Seq<char>) -> Option<u64> {
    let end = number_end(input, 0);
    let number = input.take(end);
    let dot = first_dot(number, 0);
    let whole = number.take(dot);
    let fraction = if dot < number.len() {
        number.skip(dot + 1)
    } else {
        Seq::empty()
    };
    match unit_bytes(text::lowered(input.skip(end))) {
        None => None,
        Some(unit) => if whole.len() == 0 || fraction.contains('.') || (dot < number.len()
            && fraction.len() == 0) {
            None
        } else {
            exact_bytes(whole, fraction, unit)
        },
    }
}

spec fn all_digits(digits: Seq<char>) -> bool {
    forall|i: int| 0 <= i < digits.len() ==> is_digit(#[trigger] digits[i])
}

proof fn lemma_digits_prefix(digits: Seq<char>, n: int)
    requires
        0 <= n <= digits.len(),
    ensures
        digits_value(digits.take(n)) <= digits_value(digits),
    decreases digits.len() - n,
{
    if n < digits.len() {
        lemma_digits_prefix(digits, n + 1);
        assert(digits.take(n + 1).drop_last() =~= digits.take(n));
    } else {
        assert(digits.take(n) =~= digits);
    }
}

/// The number written by the digits `chars[from..to]`; `None` where it does
/// not fit 128 bits.
fn read_digits(chars: &Vec<char>, from: usize, to: usize) -> (value: Option<u128>)
    requires
        from <= to <= chars@.len(),
        all_digits(chars@.subrange(from as int, to as int)),
    ensures
        ({
            let n = digits_value(chars@.subrange(from as int, to as int));
            match value {
                Some(v) => v == n,
                None => n > u128::MAX,
            }
        }),
{
    let ghost digits = chars@.subrange(from as int, to as int);
    let mut value: u128 = 0;
    let mut i: usize = from;
    assert(digits.take(0) =~= Seq::empty());
    while i < to
        invariant
            from <= i <= to <= chars@.len(),
            digits == chars@.subrange(from as int, to as int),
            all_digits(digits),
            value == digits_value(digits.take(i - from)),
        decreases to - i,
    {
        let ghost next = digits.take(i + 1 - from);
        proof {
            assert(next.drop_last() =~= digits.take(i - from));
            assert(next.last() == chars@[i as int]);
            assert(is_digit(digits[i - from]));
            lemma_digits_prefix(digits, i + 1 - from);
        }
        let digit: u128 = chars[i] as u128 - '0' as u128;
        value = match value.checked_mul(10) {
            Some(tens) => match tens.checked_add(digit) {
                Some(sum) => sum,
                None => {
                    return None;
                },
            },
            None => {
                return None;
            },
        };
        i += 1;
    }
    assert(digits.take(to - from) =~= digits);
    Some(value)
}

proof fn lemma_pow10_grows(a: nat, b: nat)
    requires
        a <= b,
    ensures
        pow10(a) <= pow10(b),
        pow10(a) >= 1,
    decreases b,
{
    if a < b {
        lemma_pow10_grows(a, (b - 1) as nat);
    } else if b > 0 {
        lemma_pow10_grows((a - 1) as nat, (b - 1) as nat);
    }
}

/// Ten to the power `n`; `None` where it does not fit 128 bits.
fn power_of_ten(n: usize) -> (power: Option<u128>)
    ensures
        match power {
            Some(p) => p == pow10(n as nat),
            None => pow10(n as nat) > u128::MAX,
        },
{
    let mut power: u128 = 1;
    let mut i: usize = 0;
    while i < n
        invariant
            i <= n,
            power == pow10(i as nat),
        decreases n - i,
    {
        proof {
            lemma_pow10_grows((i + 1) as nat, n as nat);
        }
        power = match power.checked_mul(10) {
            Some(more) => more,
            None => {
                return None;
            },
        };
        i += 1;
    }
    Some(power)
}

fn unit_multiplier(unit: &str) -> (multiplier: Option<u128>)
    ensures
        match multiplier {
            Some(m) => unit_bytes(unit@) == Some(m as nat) && 1 <= m <= 1_099_511_627_776,
            None => unit_bytes(unit@) is None,
        },
{
    if unit.eq("") || unit.eq("b") {
        Some(1)
    } else if unit.eq("k") || unit.eq("kb") {
        Some(1_000)
    } else if unit.eq("m") || unit.eq("mb") {
        Some(1_000_000)
    } else if unit.eq("g") || unit.eq("gb") {
        Some(1_000_000_000)
    } else if unit.eq("t") || unit.eq("tb") {
        Some(1_000_000_000_000)
    } else if unit.eq("kib") {
        Some(1024)
    } else if unit.eq("mib") {
        Some(1_048_576)
    } else if unit.eq("gib") {
        Some(1_073_741_824)
    } else if unit.eq("tib") {
        Some(1_099_511_627_776)
    } else {
        None
    }
}

/// The bytes of a whole number and a fraction, given by their digits.
fn combine(
    chars: &Vec<char>,
    dot: usize,
    fraction: usize,
    end: usize,
    unit: u128,
) -> (bytes: Option<u64>)
    requires
        dot <= fraction <= end <= chars@.len(),
        all_digits(chars@.subrange(0, dot as int)),
        all_digits(chars@.subrange(fraction as int, end as int)),
        unit >= 1,
    ensures
        bytes == exact_bytes(
            chars@.subrange(0, dot as int),
            chars@.subrange(fraction as int, end as int),
            unit as nat,
        ),
{
    let ghost w = digits_value(chars@.subrange(0, dot as int));
    let ghost f = digits_value(chars@.subrange(fraction as int, end as int));
    let ghost u = unit as nat;
    let ghost d = pow10((end - fraction) as nat);
    proof {
        assert(w <= w * u) by (nonlinear_arith)
            requires
                u >= 1,
        ;
        assert(f <= f * u) by (nonlinear_arith)
            requires
                u >= 1,
        ;
        lemma_pow10_grows(0, (end - fraction) as nat);
        assert(0 <= (f * u) / d) by (nonlinear_arith)
            requires
                d >= 1,
        ;
    }
    let whole: u128 = match read_digits(chars, 0, dot) {
        Some(value) => match value.checked_mul(unit) {
            Some(whole) => whole,
            None => {
                return None;
            },
        },
        None => {
            return None;
        },
    };
    let divisor: u128 = match power_of_ten(end - fraction) {
        Some(divisor) => divisor,
        None => {
            return None;
        },
    };
    let numerator: u128 = match read_digits(chars, fraction, end) {
        Some(value) => match value.checked_mul(unit) {
            Some(numerator) => numerator,
            None => {
                return None;
            },
        },
        None => {
            return None;
        },
    };
    if numerator % divisor != 0 {
        return None;
    }
    match whole.checked_add(numerator / divisor) {
        Some(bytes) => if bytes <= u64::MAX as u128 {
            Some(bytes as u64)
        } else {
            None
        },
        None => None,
    }
}

/// The size that `input` writes. Fractional bytes are refused, so that
/// comparison boundaries are not rounded.
pub fn parse_size(input: &str) -> (bytes: Option<u64>)
    ensures
        bytes == size_value(input@),
{
    let chars = chars_of(input);
    let ghost all = input@;
    let mut end: usize = 0;
    while end < chars.len() && (('0' <= chars[end] && chars[end] <= '9') || chars[end] == '.')
        invariant
            chars@ == all,
            end <= all.len(),
            number_end(all, 0) == number_end(all, end as int),
            forall|i: int| 0 <= i < end ==> is_digit(#[trigger] all[i]) || all[i] == '.',
        decreases all.len() - end,
    {
        end += 1;
    }
    let mut unit = String::new();
    let mut i: usize = end;
    while i < chars.len()
        invariant
            chars@ == all,
            end <= i <= all.len(),
            unit@ == text::lowered(all.subrange(end as int, i as int)),
        decreases all.len() - i,
    {
        unit.push(to_lower(chars[i]));
        i += 1;
        assert(unit@ =~= text::lowered(all.subrange(end as int, i as int)));
    }
    assert(all.subrange(end as int, i as int) =~= all.skip(end as int));
    let multiplier: u128 = match unit_multiplier(unit.as_str()) {
        Some(multiplier) => multiplier,
        None => {
            return None;
        },
    };
    let ghost number = all.take(end as int);
    let mut dot: usize = 0;
    while dot < end && chars[dot] != '.'
        invariant
            chars@ == all,
            dot <= end <= all.len(),
            number == all.take(end as int),
            first_dot(number, 0) == first_dot(number, dot as int),
            forall|i: int| 0 <= i < end ==> is_digit(#[trigger] all[i]) || all[i] == '.',
            forall|i: int| 0 <= i < dot ==> is_digit(#[trigger] all[i]),
        decreases end - dot,
    {
        assert(number[dot as int] == all[dot as int]);
        dot += 1;
    }
    proof {
        if dot < end {
            assert(number[dot as int] == all[dot as int]);
        }
        assert(number.take(dot as int) =~= all.subrange(0, dot as int));
    }
    if dot == 0 {
        return None;
    }
    let fraction: usize = if dot < end {
        dot + 1
    } else {
        end
    };
    let ghost digits = all.subrange(fraction as int, end as int);
    proof {
        if dot < end {
            assert(number.skip(dot + 1) =~= digits);
        } else {
            assert(digits =~= Seq::empty());
        }
    }
    if dot < end && fraction == end {
        return None;
    }
    let mut k: usize = fraction;
    while k < end
        invariant
            chars@ == all,
            fraction <= k <= end <= all.len(),
            digits == all.subrange(fraction as int, end as int),
            forall|i: int| 0 <= i < end ==> is_digit(#[trigger] all[i]) || all[i] == '.',
            forall|i: int| fraction <= i < k ==> is_digit(#[trigger] all[i]),
        ensures
            k < end ==> digits.contains('.'),
            k == end ==> forall|i: int| fraction <= i < end ==> is_digit(#[trigger] all[i]),
        decreases end - k,
    {
        if chars[k] == '.' {
            assert(digits[k - fraction] == '.');
            break;
        }
        k += 1;
    }
    if k < end {
        return None;
    }
    proof {
        assert forall|i: int| 0 <= i < digits.len() implies is_digit(#[trigger] digits[i]) by {
            assert(digits[i] == all[fraction + i]);
        }
        assert(!digits.contains('.'));
        let whole = all.subrange(0, dot as int);
        assert forall|i: int| 0 <= i < whole.len() implies is_digit(#[trigger] whole[i]) by {
            assert(whole[i] == all[i]);
        }
    }
    combine(&chars, dot, fraction, end, multiplier)
}

// Queries.

/// Where the word that stands at `from` ends.
pub open spec fn word_end(input: Seq<char>, from: int) -> int
    decreases input.len() - from,
{
    if from >= input.len() || text::is_space(input[from]) {
        from
    } else {
        word_end(input, from + 1)
    }
}

/// Where the first double quote from `from` on stands; the length where there
/// is none.
pub open spec fn quote_end(input: Seq<char>, from: int) -> int
    decreases input.len() - from,
{
    if from >= input.len() || input[from] == '"' {
        from
    } else {
        quote_end(input, from + 1)
    }
}

pub const UNCLOSED: &'static str = "Close the quoted file name with a double quote.";

pub const UNSEPARATED: &'static str = "Separate search terms with spaces.";

/// The message that refuses a size.
pub open spec fn invalid_size(word: Seq<char>) -> Seq<char> {
    "Invalid size: "@ + word + ". Try >1g, >=500m, or <=2.5g."@
}

/// The comparison with which a word begins, and how many characters it takes.
pub open spec fn comparison_of(word: Seq<char>) -> Option<(Comparison, int)> {
    if word.len() == 0 {
        None
    } else if word[0] == '>' {
        if word.len() > 1 && word[1] == '=' {
            Some((Comparison::GreaterEqual, 2))
        } else {
            Some((Comparison::Greater, 1))
        }
    } else if word[0] == '<' {
        if word.len() > 1 && word[1] == '=' {
            Some((Comparison::LessEqual, 2))
        } else {
            Some((Comparison::Less, 1))
        }
    } else if word[0] == '=' {
        Some((Comparison::Equal, 1))
    } else {
        None
    }
}

/// The condition that an unquoted word sets, or why it sets none.
pub open spec fn word_condition(word: Seq<char>) -> Result<Condition, Seq<char>> {
    match comparison_of(word) {
        Some((comparison, skip)) => match size_value(word.skip(skip)) {
            Some(bytes) => Ok(Condition::Size(comparison, bytes)),
            None => Err(invalid_size(word)),
        },
        None => if word.contains('*') || word.contains('?') {
            Ok(Condition::Glob(word))
        } else {
            Ok(Condition::Name(word))
        },
    }
}

/// What a query sets from `from` on: the conditions of its words, or why the
/// first word that is wrong is refused. A quoted text is a name.
pub open spec fn query_value(input: Seq<char>, from: int) -> Result<Seq<Condition>, Seq<char>>
    decreases input.len() - from,
    via query_value_decreases
{
    if from >= input.len() {
        Ok(Seq::empty())
    } else if text::is_space(input[from]) {
        query_value(input, from + 1)
    } else if input[from] == '"' {
        let close = quote_end(input, from + 1);
        if close >= input.len() {
            Err(UNCLOSED@)
        } else if close + 1 < input.len() && !text::is_space(input[close + 1]) {
            Err(UNSEPARATED@)
        } else {
            with_first(
                Condition::Name(input.subrange(from + 1, close)),
                query_value(input, close + 1),
            )
        }
    } else {
        let end = word_end(input, from);
        match word_condition(input.subrange(from, end)) {
            Err(message) => Err(message),
            Ok(condition) => with_first(condition, query_value(input, end)),
        }
    }
}

/// One condition before others.
pub open spec fn with_first(
    condition: Condition,
    rest: Result<Seq<Condition>, Seq<char>>,
) -> Result<Seq<Condition>, Seq<char>> {
    match rest {
        Ok(conditions) => Ok(seq![condition] + conditions),
        Err(message) => Err(message),
    }
}

#[via_fn]
proof fn query_value_decreases(input: Seq<char>, from: int) {
    lemma_quote_end(input, from + 1);
    lemma_word_end(input, from + 1);
}

proof fn lemma_quote_end(input: Seq<char>, from: int)
    ensures
        quote_end(input, from) >= from,
        from <= input.len() ==> quote_end(input, from) <= input.len(),
    decreases input.len() - from,
{
    if from < input.len() && input[from] != '"' {
        lemma_quote_end(input, from + 1);
    }
}

proof fn lemma_word_end(input: Seq<char>, from: int)
    ensures
        word_end(input, from) >= from,
        from <= input.len() ==> word_end(input, from) <= input.len(),
    decreases input.len() - from,
{
    if from < input.len() && !text::is_space(input[from]) {
        lemma_word_end(input, from + 1);
    }
}

/// Whether the conditions found so far and those of the rest are the whole
/// query.
spec fn continues(
    whole: Result<Seq<Condition>, Seq<char>>,
    found: Seq<Condition>,
    rest: Result<Seq<Condition>, Seq<char>>,
) -> bool {
    whole == match rest {
        Ok(conditions) => Ok(found + conditions),
        Err(message) => Err(message),
    }
}

proof fn lemma_continues_push(
    whole: Result<Seq<Condition>, Seq<char>>,
    found: Seq<Condition>,
    condition: Condition,
    rest: Result<Seq<Condition>, Seq<char>>,
)
    requires
        continues(whole, found, with_first(condition, rest)),
    ensures
        continues(whole, found.push(condition), rest),
{
    match rest {
        Ok(conditions) => {
            assert(found + (seq![condition] + conditions) =~= found.push(condition) + conditions);
        },
        Err(_) => {},
    }
}

fn holds(chars: &Vec<char>, from: usize, to: usize, wanted: char) -> (found: bool)
    requires
        from <= to <= chars@.len(),
    ensures
        found == chars@.subrange(from as int, to as int).contains(wanted),
{
    let ghost part = chars@.subrange(from as int, to as int);
    let mut i: usize = from;
    while i < to
        invariant
            from <= i <= to <= chars@.len(),
            part == chars@.subrange(from as int, to as int),
            forall|k: int| from <= k < i ==> #[trigger] chars@[k] != wanted,
        decreases to - i,
    {
        if chars[i] == wanted {
            assert(part[i - from] == wanted);
            return true;
        }
        i += 1;
    }
    assert forall|k: int| 0 <= k < part.len() implies part[k] != wanted by {
        assert(part[k] == chars@[from + k]);
    }
    false
}

/// The condition that the unquoted word `chars[from..to]` sets.
fn read_word(chars: &Vec<char>, from: usize, to: usize) -> (term: Result<Term, String>)
    requires
        from < to <= chars@.len(),
    ensures
        match word_condition(chars@.subrange(from as int, to as int)) {
            Ok(condition) => term is Ok && term->Ok_0@ == condition,
            Err(message) => term is Err && term->Err_0@ == message,
        },
{
    let ghost word = chars@.subrange(from as int, to as int);
    let first: char = chars[from];
    let two: bool = to - from > 1 && chars[from + 1] == '=';
    assert(word[0] == first);
    assert(to - from > 1 ==> word[1] == chars@[from + 1]);
    if first == '<' || first == '>' || first == '=' {
        let comparison = if first == '>' {
            if two {
                Comparison::GreaterEqual
            } else {
                Comparison::Greater
            }
        } else if first == '<' {
            if two {
                Comparison::LessEqual
            } else {
                Comparison::Less
            }
        } else {
            Comparison::Equal
        };
        let skip: usize = if two && first != '=' {
            2
        } else {
            1
        };
        let value = string_from(chars.as_slice(), from + skip, to);
        assert(value@ =~= word.skip(skip as int));
        match parse_size(value.as_str()) {
            Some(bytes) => Ok(Term::Size(comparison, bytes)),
            None => {
                let mut message = owned("Invalid size: ");
                message.append(string_from(chars.as_slice(), from, to).as_str());
                message.append(". Try >1g, >=500m, or <=2.5g.");
                Err(message)
            },
        }
    } else if holds(chars, from, to, '*') || holds(chars, from, to, '?') {
        let text = string_from(chars.as_slice(), from, to);
        Ok(Term::Glob(chars_of(text.as_str())))
    } else {
        Ok(Term::Name(string_from(chars.as_slice(), from, to)))
    }
}

impl Query {
    /// The query that `input` writes, or a message that says what is wrong.
    pub fn parse(input: &str) -> (query: Result<Query, String>)
        ensures
            match query_value(input@, 0) {
                Ok(conditions) => query is Ok && query->Ok_0@ == conditions,
                Err(message) => query is Err && query->Err_0@ == message,
            },
    {
        let chars = chars_of(input);
        let ghost all = input@;
        let ghost whole = query_value(all, 0);
        let mut terms: Vec<Term> = Vec::new();
        let mut i: usize = 0;
        proof {
            assert(term_views(terms@) =~= Seq::empty());
            match whole {
                Ok(conditions) => {
                    assert(Seq::<Condition>::empty() + conditions =~= conditions);
                },
                Err(_) => {},
            }
        }
        while i < chars.len()
            invariant
                chars@ == all,
                all == input@,
                i <= all.len(),
                whole == query_value(all, 0),
                continues(whole, term_views(terms@), query_value(all, i as int)),
            decreases all.len() - i,
        {
            let ghost found = term_views(terms@);
            if is_white(chars[i]) {
                i += 1;
            } else if chars[i] == '"' {
                let start: usize = i + 1;
                let mut close: usize = start;
                while close < chars.len() && chars[close] != '"'
                    invariant
                        chars@ == all,
                        start <= close <= all.len(),
                        quote_end(all, start as int) == quote_end(all, close as int),
                    decreases all.len() - close,
                {
                    close += 1;
                }
                if close == chars.len() {
                    return Err(owned(UNCLOSED));
                }
                if close + 1 < chars.len() && !is_white(chars[close + 1]) {
                    return Err(owned(UNSEPARATED));
                }
                let term = Term::Name(string_from(chars.as_slice(), start, close));
                let ghost condition = term@;
                terms.push(term);
                proof {
                    assert(term_views(terms@) =~= found.push(condition));
                    lemma_continues_push(whole, found, condition, query_value(all, close + 1));
                }
                i = close + 1;
            } else {
                let mut end: usize = i;
                while end < chars.len() && !is_white(chars[end])
                    invariant
                        chars@ == all,
                        i <= end <= all.len(),
                        word_end(all, i as int) == word_end(all, end as int),
                    decreases all.len() - end,
                {
                    end += 1;
                }
                assert(end > i);
                match read_word(&chars, i, end) {
                    Ok(term) => {
                        let ghost condition = term@;
                        terms.push(term);
                        proof {
                            assert(term_views(terms@) =~= found.push(condition));
                            lemma_continues_push(
                                whole,
                                found,
                                condition,
                                query_value(all, end as int),
                            );
                        }
                    },
                    Err(message) => {
                        return Err(message);
                    },
                }
                i = end;
            }
        }
        assert(term_views(terms@) + Seq::<Condition>::empty() =~= term_views(terms@));
        Ok(Query { terms })
    }
}

/// Whether `size` stands in this relation to `bytes`.
pub open spec fn compares(comparison: Comparison, size: u64, bytes: u64) -> bool {
    match comparison {
        Comparison::Less => size < bytes,
        Comparison::LessEqual => size <= bytes,
        Comparison::Equal => size == bytes,
        Comparison::GreaterEqual => size >= bytes,
        Comparison::Greater => size > bytes,
    }
}

/// Whether a file of this name and size meets a condition.
pub open spec fn meets(condition: Condition, name: Seq<char>, size: u64) -> bool {
    match condition {
        Condition::Name(needle) => text::contains_lowered(name, needle),
        Condition::Glob(pattern) => fits(pattern, name),
        Condition::Size(comparison, bytes) => compares(comparison, size, bytes),
    }
}

/// Whether a file of this name and size meets every condition.
pub open spec fn meets_all(conditions: Seq<Condition>, name: Seq<char>, size: u64) -> bool {
    forall|i: int| 0 <= i < conditions.len() ==> meets(#[trigger] conditions[i], name, size)
}

fn is_met(term: &Term, name: &str, size: u64) -> (met: bool)
    ensures
        met == meets(term@, name@, size),
{
    match term {
        Term::Name(needle) => contains_case_insensitive(name, needle.as_str()),
        Term::Glob(pattern) => glob_matches(pattern.as_slice(), name),
        Term::Size(comparison, bytes) => match comparison {
            Comparison::Less => size < *bytes,
            Comparison::LessEqual => size <= *bytes,
            Comparison::Equal => size == *bytes,
            Comparison::GreaterEqual => size >= *bytes,
            Comparison::Greater => size > *bytes,
        },
    }
}

impl Query {
    /// Whether a file of this name and size is what the query looks for.
    pub fn matches(&self, name: &str, size: u64) -> (found: bool)
        ensures
            found == meets_all(self@, name@, size),
    {
        let mut i: usize = 0;
        while i < self.terms.len()
            invariant
                i <= self.terms@.len(),
                forall|k: int| 0 <= k < i ==> meets(#[trigger] self@[k], name@, size),
            decreases self.terms@.len() - i,
        {
            assert(self.terms@[i as int]@ == self@[i as int]);
            if !is_met(&self.terms[i], name, size) {
                return false;
            }
            i += 1;
        }
        true
    }
}

/// A blank query looks for everything.
pub proof fn lemma_blank_query(input: Seq<char>, name: Seq<char>, size: u64)
    requires
        forall|i: int| 0 <= i < input.len() ==> text::is_space(#[trigger] input[i]),
    ensures
        query_value(input, 0) == Ok::<Seq<Condition>, Seq<char>>(Seq::empty()),
        meets_all(query_value(input, 0)->Ok_0, name, size),
{
    lemma_blank_rest(input, 0);
}

proof fn lemma_blank_rest(input: Seq<char>, from: int)
    requires
        0 <= from <= input.len(),
        forall|i: int| 0 <= i < input.len() ==> text::is_space(#[trigger] input[i]),
    ensures
        query_value(input, from) == Ok::<Seq<Condition>, Seq<char>>(Seq::empty()),
    decreases input.len() - from,
{
    if from < input.len() {
        lemma_blank_rest(input, from + 1);
    }
}

/// A pattern without wildcards fits exactly the names that differ from it in
/// ASCII case alone.
pub proof fn lemma_fits_literal(pattern: Seq<char>, name: Seq<char>)
    requires
        !pattern.contains('*'),
        !pattern.contains('?'),
    ensures
        fits(pattern, name) == (text::lowered(pattern) == text::lowered(name)),
    decreases pattern.len(),
{
    if pattern.len() == 0 {
        assert(text::lowered(pattern) =~= Seq::<char>::empty());
        if name.len() > 0 {
            assert(text::lowered(name).len() > 0);
        } else {
            assert(text::lowered(name) =~= Seq::<char>::empty());
        }
    } else {
        assert(pattern.contains(pattern[0]));
        let rest = pattern.skip(1);
        assert forall|c: char| rest.contains(c) implies pattern.contains(c) by {
            let i = rest.index_of(c);
            assert(pattern[i + 1] == c);
        }
        if name.len() == 0 {
            assert(text::lowered(pattern).len() != text::lowered(name).len());
        } else {
            lemma_fits_literal(rest, name.skip(1));
            assert(text::lowered(pattern) =~= seq![text::lower(pattern[0])] + text::lowered(rest));
            assert(text::lowered(name) =~= seq![text::lower(name[0])] + text::lowered(
                name.skip(1),
            ));
            assert(text::lowered(pattern)[0] == text::lower(pattern[0]));
            assert(text::lowered(name)[0] == text::lower(name[0]));
            assert(text::lowered(pattern).skip(1) =~= text::lowered(rest));
            assert(text::lowered(name).skip(1) =~= text::lowered(name.skip(1)));
        }
    }
}

/// A star alone fits every name.
pub proof fn lemma_star_fits_all(name: Seq<char>)
    ensures
        fits(seq!['*'], name),
    decreases name.len(),
{
    let star = seq!['*'];
    if name.len() == 0 {
        assert(star.skip(1) =~= Seq::<char>::empty());
        assert(fits(star.skip(1), name));
    } else {
        lemma_star_fits_all(name.skip(1));
    }
}

/// Two queries with a space between them.
pub open spec fn one_after_another(a: Seq<char>, b: Seq<char>) -> Seq<char> {
    a.push(' ') + b
}

proof fn lemma_word_end_kept(a: Seq<char>, b: Seq<char>, from: int)
    requires
        0 <= from <= a.len(),
    ensures
        word_end(one_after_another(a, b), from) == word_end(a, from),
    decreases a.len() - from,
{
    let whole = one_after_another(a, b);
    if from < a.len() {
        assert(whole[from] == a[from]);
        if !text::is_space(a[from]) {
            lemma_word_end_kept(a, b, from + 1);
        }
    } else {
        assert(whole[from] == ' ');
    }
}

proof fn lemma_quote_end_kept(a: Seq<char>, b: Seq<char>, from: int)
    requires
        0 <= from <= a.len(),
        quote_end(a, from) < a.len(),
    ensures
        quote_end(one_after_another(a, b), from) == quote_end(a, from),
    decreases a.len() - from,
{
    let whole = one_after_another(a, b);
    if from < a.len() {
        assert(whole[from] == a[from]);
        if a[from] != '"' {
            lemma_quote_end_kept(a, b, from + 1);
        }
    }
}

proof fn lemma_ends_later(a: Seq<char>, b: Seq<char>, from: int)
    requires
        0 <= from <= b.len(),
    ensures
        word_end(one_after_another(a, b), a.len() + 1 + from) == a.len() + 1 + word_end(b, from),
        quote_end(one_after_another(a, b), a.len() + 1 + from) == a.len() + 1 + quote_end(b, from),
    decreases b.len() - from,
{
    let whole = one_after_another(a, b);
    if from < b.len() {
        assert(whole[a.len() + 1 + from] == b[from]);
        lemma_ends_later(a, b, from + 1);
    }
}

proof fn lemma_query_later(a: Seq<char>, b: Seq<char>, from: int)
    requires
        0 <= from <= b.len(),
    ensures
        query_value(one_after_another(a, b), a.len() + 1 + from) == query_value(b, from),
    decreases b.len() - from,
{
    let whole = one_after_another(a, b);
    let at = a.len() + 1 + from;
    if from < b.len() {
        assert(whole[at] == b[from]);
        if text::is_space(b[from]) {
            lemma_query_later(a, b, from + 1);
        } else if b[from] == '"' {
            lemma_ends_later(a, b, from + 1);
            lemma_quote_end(b, from + 1);
            let close = quote_end(b, from + 1);
            if close < b.len() {
                assert(whole.subrange(at + 1, a.len() + 1 + close) =~= b.subrange(from + 1, close));
                if close + 1 < b.len() {
                    assert(whole[a.len() + 1 + close + 1] == b[close + 1]);
                }
                lemma_query_later(a, b, close + 1);
            }
        } else {
            lemma_ends_later(a, b, from);
            lemma_word_end(b, from + 1);
            let end = word_end(b, from);
            assert(whole.subrange(at, a.len() + 1 + end) =~= b.subrange(from, end));
            lemma_query_later(a, b, end);
        }
    }
}

proof fn lemma_query_goes_on(a: Seq<char>, b: Seq<char>, from: int)
    requires
        0 <= from <= a.len(),
        query_value(a, from) is Ok,
        query_value(b, 0) is Ok,
    ensures
        query_value(one_after_another(a, b), from) == Ok::<Seq<Condition>, Seq<char>>(
            query_value(a, from)->Ok_0 + query_value(b, 0)->Ok_0,
        ),
    decreases a.len() - from,
{
    let whole = one_after_another(a, b);
    let second = query_value(b, 0)->Ok_0;
    if from == a.len() {
        assert(whole[from] == ' ');
        lemma_query_later(a, b, 0);
        assert(Seq::<Condition>::empty() + second =~= second);
    } else {
        assert(whole[from] == a[from]);
        if text::is_space(a[from]) {
            lemma_query_goes_on(a, b, from + 1);
        } else if a[from] == '"' {
            let close = quote_end(a, from + 1);
            lemma_quote_end(a, from + 1);
            lemma_quote_end_kept(a, b, from + 1);
            assert(whole.subrange(from + 1, close) =~= a.subrange(from + 1, close));
            if close + 1 < a.len() {
                assert(whole[close + 1] == a[close + 1]);
            } else {
                assert(whole[close + 1] == ' ');
            }
            lemma_query_goes_on(a, b, close + 1);
            let first = Condition::Name(a.subrange(from + 1, close));
            assert((seq![first] + query_value(a, close + 1)->Ok_0) + second =~= seq![first] + (
            query_value(a, close + 1)->Ok_0 + second));
        } else {
            let end = word_end(a, from);
            lemma_word_end(a, from + 1);
            lemma_word_end_kept(a, b, from);
            assert(whole.subrange(from, end) =~= a.subrange(from, end));
            lemma_query_goes_on(a, b, end);
            let first = word_condition(a.subrange(from, end))->Ok_0;
            assert((seq![first] + query_value(a, end)->Ok_0) + second =~= seq![first] + (
            query_value(a, end)->Ok_0 + second));
        }
    }
}

/// Two queries written one after the other, with a space between them, are a query
/// that looks for what both look for.
pub proof fn lemma_both_queries(a: Seq<char>, b: Seq<char>, name: Seq<char>, size: u64)
    requires
        query_value(a, 0) is Ok,
        query_value(b, 0) is Ok,
    ensures
        query_value(one_after_another(a, b), 0) is Ok,
        meets_all(query_value(one_after_another(a, b), 0)->Ok_0, name, size) == (meets_all(
            query_value(a, 0)->Ok_0,
            name,
            size,
        ) && meets_all(query_value(b, 0)->Ok_0, name, size)),
{
    lemma_query_goes_on(a, b, 0);
    let first = query_value(a, 0)->Ok_0;
    let second = query_value(b, 0)->Ok_0;
    let both = first + second;
    if meets_all(both, name, size) {
        assert forall|i: int| 0 <= i < first.len() implies meets(
            #[trigger] first[i],
            name,
            size,
        ) by {
            assert(meets(both[i], name, size));
        }
        assert forall|i: int| 0 <= i < second.len() implies meets(
            #[trigger] second[i],
            name,
            size,
        ) by {
            assert(meets(both[first.len() + i], name, size));
        }
    }
}

} // verus!
