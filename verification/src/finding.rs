//! What search queries find.

use vstd::prelude::*;

use crate::search;
use crate::search::{Comparison, Condition};
use crate::text;

verus! {

/// A pattern written of two fits what is written of a name that fits the first and one
/// that fits the second, and nothing else.
pub proof fn lemma_fits_joined(first: Seq<char>, second: Seq<char>, name: Seq<char>)
    ensures
        search::fits(first + second, name) <==> exists|k: int|
            0 <= k <= name.len() && search::fits(first, #[trigger] name.take(k)) && search::fits(
                second,
                name.skip(k),
            ),
    decreases first.len(), name.len(),
{
    let whole = first + second;
    if first.len() == 0 {
        assert(whole =~= second);
        assert(name.take(0) =~= Seq::<char>::empty());
        assert(name.skip(0) =~= name);
        if exists|k: int|
            0 <= k <= name.len() && search::fits(first, #[trigger] name.take(k)) && search::fits(
                second,
                name.skip(k),
            ) {
            let k = choose|k: int|
                0 <= k <= name.len() && search::fits(first, #[trigger] name.take(k))
                    && search::fits(second, name.skip(k));
            assert(name.take(k).len() == 0);
        }
    } else {
        let rest = first.skip(1);
        assert(whole.skip(1) =~= rest + second);
        assert(whole[0] == first[0]);
        if first[0] == '*' {
            lemma_fits_joined(rest, second, name);
            if name.len() > 0 {
                lemma_fits_joined(first, second, name.skip(1));
            }
            lemma_star_first(first, second, name);
        } else if name.len() > 0 {
            lemma_fits_joined(rest, second, name.skip(1));
            lemma_letter_first(first, second, name);
        } else {
            assert forall|k: int| 0 <= k <= name.len() implies !search::fits(
                first,
                #[trigger] name.take(k),
            ) by {
                assert(name.take(k).len() == 0);
            }
        }
    }
}


proof fn lemma_star_first(first: Seq<char>, second: Seq<char>, name: Seq<char>)
    requires
        first.len() > 0,
        first[0] == '*',
    ensures
        (exists|k: int|
            0 <= k <= name.len() && search::fits(first, #[trigger] name.take(k)) && search::fits(
                second,
                name.skip(k),
            )) <==> {
            ||| exists|k: int|
                0 <= k <= name.len() && search::fits(first.skip(1), #[trigger] name.take(k))
                    && search::fits(second, name.skip(k))
            ||| name.len() > 0 && exists|k: int|
                0 <= k <= name.len() - 1 && search::fits(first, #[trigger] name.skip(1).take(k))
                    && search::fits(second, name.skip(1).skip(k))
        },
{
    let rest = first.skip(1);
    if exists|k: int|
        0 <= k <= name.len() && search::fits(first, #[trigger] name.take(k)) && search::fits(
            second,
            name.skip(k),
        ) {
        let k = choose|k: int|
            0 <= k <= name.len() && search::fits(first, #[trigger] name.take(k)) && search::fits(
                second,
                name.skip(k),
            );
        let part = name.take(k);
        if !search::fits(rest, part) {
            assert(part.len() > 0 && search::fits(first, part.skip(1)));
            assert(part.skip(1) =~= name.skip(1).take(k - 1));
            assert(name.skip(1).skip(k - 1) =~= name.skip(k));
        }
    }
    if exists|k: int|
        0 <= k <= name.len() && search::fits(rest, #[trigger] name.take(k)) && search::fits(
            second,
            name.skip(k),
        ) {
        let k = choose|k: int|
            0 <= k <= name.len() && search::fits(rest, #[trigger] name.take(k)) && search::fits(
                second,
                name.skip(k),
            );
        assert(search::fits(first, name.take(k)));
    }
    if name.len() > 0 && exists|k: int|
        0 <= k <= name.len() - 1 && search::fits(first, #[trigger] name.skip(1).take(k))
            && search::fits(second, name.skip(1).skip(k)) {
        let k = choose|k: int|
            0 <= k <= name.len() - 1 && search::fits(first, #[trigger] name.skip(1).take(k))
                && search::fits(second, name.skip(1).skip(k));
        let part = name.take(k + 1);
        assert(part.skip(1) =~= name.skip(1).take(k));
        assert(name.skip(1).skip(k) =~= name.skip(k + 1));
        assert(search::fits(first, part));
    }
}

proof fn lemma_letter_first(first: Seq<char>, second: Seq<char>, name: Seq<char>)
    requires
        first.len() > 0,
        first[0] != '*',
        name.len() > 0,
    ensures
        (exists|k: int|
            0 <= k <= name.len() && search::fits(first, #[trigger] name.take(k)) && search::fits(
                second,
                name.skip(k),
            )) <==> search::stands_for(first[0], name[0]) && exists|k: int|
            0 <= k <= name.len() - 1 && search::fits(
                first.skip(1),
                #[trigger] name.skip(1).take(k),
            ) && search::fits(second, name.skip(1).skip(k)),
{
    let rest = first.skip(1);
    if exists|k: int|
        0 <= k <= name.len() && search::fits(first, #[trigger] name.take(k)) && search::fits(
            second,
            name.skip(k),
        ) {
        let k = choose|k: int|
            0 <= k <= name.len() && search::fits(first, #[trigger] name.take(k)) && search::fits(
                second,
                name.skip(k),
            );
        let part = name.take(k);
        assert(part.len() > 0 && search::fits(rest, part.skip(1)));
        assert(part.skip(1) =~= name.skip(1).take(k - 1));
        assert(name.skip(1).skip(k - 1) =~= name.skip(k));
    }
    if search::stands_for(first[0], name[0]) && exists|k: int|
        0 <= k <= name.len() - 1 && search::fits(rest, #[trigger] name.skip(1).take(k))
            && search::fits(second, name.skip(1).skip(k)) {
        let k = choose|k: int|
            0 <= k <= name.len() - 1 && search::fits(rest, #[trigger] name.skip(1).take(k))
                && search::fits(second, name.skip(1).skip(k));
        let part = name.take(k + 1);
        assert(part.skip(1) =~= name.skip(1).take(k));
        assert(name.skip(1).skip(k) =~= name.skip(k + 1));
        assert(search::fits(first, part));
    }
}

/// A star fits every name, a question mark every name of one character, and any other
/// character the name that is the same but for the case of an ASCII letter.
pub proof fn lemma_fits_one(c: char, name: Seq<char>)
    ensures
        search::fits(seq![c], name) <==> {
            ||| c == '*'
            ||| name.len() == 1 && (c == '?' || text::alike(c, name[0]))
        },
{
    let one = seq![c];
    assert(one.skip(1) =~= Seq::<char>::empty());
    if c == '*' {
        assert(one == seq!['*']);
        search::lemma_star_fits_all(name);
    } else if name.len() > 0 {
        reveal_with_fuel(search::fits, 2);
        assert(name.skip(1).len() == name.len() - 1);
        assert(search::fits(one.skip(1), name.skip(1)) == (name.len() == 1));
        assert(text::lower(c) == text::lower(name[0]) <==> text::alike(c, name[0]));
    }
}

/// Whether all characters are digits.
pub open spec fn digits(text: Seq<char>) -> bool {
    forall|i: int| 0 <= i < text.len() ==> '0' <= #[trigger] text[i] <= '9'
}

/// Whether a unit, in any case, stands for so many bytes: powers of a thousand, and with
/// an `i` powers of 1024.
pub open spec fn unit_is(unit: Seq<char>, factor: nat) -> bool {
    ||| factor == 1 && (unit.len() == 0 || text::all_alike(unit, "b"@))
    ||| factor == 1000 && (text::all_alike(unit, "k"@) || text::all_alike(unit, "kb"@))
    ||| factor == 1000 * 1000 && (text::all_alike(unit, "m"@) || text::all_alike(unit, "mb"@))
    ||| factor == 1000 * 1000 * 1000 && (text::all_alike(unit, "g"@) || text::all_alike(
        unit,
        "gb"@,
    ))
    ||| factor == 1000 * 1000 * 1000 * 1000 && (text::all_alike(unit, "t"@) || text::all_alike(
        unit,
        "tb"@,
    ))
    ||| factor == 1024 && text::all_alike(unit, "kib"@)
    ||| factor == 1024 * 1024 && text::all_alike(unit, "mib"@)
    ||| factor == 1024 * 1024 * 1024 && text::all_alike(unit, "gib"@)
    ||| factor == 1024 * 1024 * 1024 * 1024 && text::all_alike(unit, "tib"@)
}

proof fn lemma_unit(unit: Seq<char>, factor: nat)
    requires
        unit_is(unit, factor),
    ensures
        search::unit_bytes(text::lowered(unit)) == Some(factor),
        forall|i: int| 0 <= i < unit.len() ==> 'A' <= #[trigger] unit[i] <= 'z',
{
    reveal_strlit("");
    reveal_strlit("b");
    reveal_strlit("k");
    reveal_strlit("kb");
    reveal_strlit("m");
    reveal_strlit("mb");
    reveal_strlit("g");
    reveal_strlit("gb");
    reveal_strlit("t");
    reveal_strlit("tb");
    reveal_strlit("kib");
    reveal_strlit("mib");
    reveal_strlit("gib");
    reveal_strlit("tib");
    let low = text::lowered(unit);
    assert(low.len() == unit.len());
    assert forall|i: int| 0 <= i < unit.len() implies low[i] == text::lower(#[trigger] unit[i]) by {}
    if unit.len() == 0 {
        assert(low =~= ""@);
    } else if unit.len() == 1 {
        assert(text::alike(unit[0], low[0]));
        if factor == 1 {
            assert(text::alike(unit[0], "b"@[0]));
            assert(low =~= "b"@);
        } else if factor == 1000 {
            assert(text::alike(unit[0], "k"@[0]));
            assert(low =~= "k"@);
        } else if factor == 1000 * 1000 {
            assert(text::alike(unit[0], "m"@[0]));
            assert(low =~= "m"@);
        } else if factor == 1000 * 1000 * 1000 {
            assert(text::alike(unit[0], "g"@[0]));
            assert(low =~= "g"@);
        } else {
            assert(text::alike(unit[0], "t"@[0]));
            assert(low =~= "t"@);
        }
    } else if unit.len() == 2 {
        if factor == 1000 {
            assert(text::alike(unit[0], "kb"@[0]) && text::alike(unit[1], "kb"@[1]));
            assert(low =~= "kb"@);
        } else if factor == 1000 * 1000 {
            assert(text::alike(unit[0], "mb"@[0]) && text::alike(unit[1], "mb"@[1]));
            assert(low =~= "mb"@);
        } else if factor == 1000 * 1000 * 1000 {
            assert(text::alike(unit[0], "gb"@[0]) && text::alike(unit[1], "gb"@[1]));
            assert(low =~= "gb"@);
        } else {
            assert(text::alike(unit[0], "tb"@[0]) && text::alike(unit[1], "tb"@[1]));
            assert(low =~= "tb"@);
        }
    } else {
        if factor == 1024 {
            assert(text::alike(unit[0], "kib"@[0]) && text::alike(unit[1], "kib"@[1])
                && text::alike(unit[2], "kib"@[2]));
            assert(low =~= "kib"@);
        } else if factor == 1024 * 1024 {
            assert(text::alike(unit[0], "mib"@[0]) && text::alike(unit[1], "mib"@[1])
                && text::alike(unit[2], "mib"@[2]));
            assert(low =~= "mib"@);
        } else if factor == 1024 * 1024 * 1024 {
            assert(text::alike(unit[0], "gib"@[0]) && text::alike(unit[1], "gib"@[1])
                && text::alike(unit[2], "gib"@[2]));
            assert(low =~= "gib"@);
        } else {
            assert(text::alike(unit[0], "tib"@[0]) && text::alike(unit[1], "tib"@[1])
                && text::alike(unit[2], "tib"@[2]));
            assert(low =~= "tib"@);
        }
    }
}

proof fn lemma_number(digits: Seq<char>)
    requires
        self::digits(digits),
    ensures
        search::digits_value(digits) == text::number(digits, 10),
    decreases digits.len(),
{
    if digits.len() > 0 {
        let front = digits.drop_last();
        assert forall|i: int| 0 <= i < front.len() implies '0' <= #[trigger] front[i] <= '9' by {
            assert('0' <= digits[i] <= '9');
        }
        assert('0' <= digits[digits.len() - 1] <= '9');
        lemma_number(front);
    }
}

proof fn lemma_number_end(input: Seq<char>, from: int, end: int)
    requires
        0 <= from <= end <= input.len(),
        forall|i: int|
            from <= i < end ==> '0' <= #[trigger] input[i] <= '9' || input[i] == '.',
        end < input.len() ==> !('0' <= input[end] <= '9') && input[end] != '.',
    ensures
        search::number_end(input, from) == end,
    decreases end - from,
{
    if from < end {
        assert('0' <= input[from] <= '9' || input[from] == '.');
        lemma_number_end(input, from + 1, end);
    }
}

proof fn lemma_first_dot(number: Seq<char>, from: int, dot: int)
    requires
        0 <= from <= dot <= number.len(),
        forall|i: int| from <= i < dot ==> '0' <= #[trigger] number[i] <= '9',
        dot < number.len() ==> number[dot] == '.',
    ensures
        search::first_dot(number, from) == dot,
    decreases dot - from,
{
    if from < dot {
        assert('0' <= number[from] <= '9');
        lemma_first_dot(number, from + 1, dot);
    }
}

proof fn lemma_whole_size(whole: Seq<char>, unit: Seq<char>, factor: nat)
    requires
        digits(whole),
        whole.len() > 0,
        unit_is(unit, factor),
    ensures
        search::size_value(whole + unit) == search::exact_bytes(whole, Seq::empty(), factor),
{
    let input = whole + unit;
    let end = whole.len() as int;
    lemma_unit(unit, factor);
    assert forall|i: int| 0 <= i < end implies '0' <= #[trigger] input[i] <= '9' by {
        assert(input[i] == whole[i]);
    }
    if end < input.len() {
        assert(input[end] == unit[0]);
    }
    lemma_number_end(input, 0, end);
    assert(input.take(end) =~= whole);
    assert(input.skip(end) =~= unit);
    lemma_first_dot(whole, 0, end);
    assert(whole.take(end) =~= whole);
}

/// A whole number with a unit is that many of the unit, where that is not too large.
pub proof fn lemma_size_of_number(n: nat, unit: Seq<char>, factor: nat)
    requires
        unit_is(unit, factor),
    ensures
        search::size_value(text::decimal(n) + unit) == if n * factor <= u64::MAX {
            Some((n * factor) as u64)
        } else {
            None
        },
{
    let whole = text::decimal(n);
    let none = Seq::<char>::empty();
    text::lemma_decimal_reads_back(n);
    lemma_number(whole);
    lemma_whole_size(whole, unit, factor);
    assert(search::digits_value(none) == 0);
    assert(search::pow10(0) == 1);
    assert(0nat * factor == 0) by (nonlinear_arith);
}

/// A number with a fraction is exactly that many of the unit: times ten for each digit of
/// the fraction it is the number without the point, of the unit.
pub proof fn lemma_size_of_fraction(
    whole: Seq<char>,
    fraction: Seq<char>,
    unit: Seq<char>,
    factor: nat,
)
    requires
        digits(whole),
        digits(fraction),
        whole.len() > 0,
        fraction.len() > 0,
        unit_is(unit, factor),
    ensures
        ({
            let value = search::size_value(whole.push('.') + fraction + unit);
            let scale = search::pow10(fraction.len());
            let part = text::number(fraction, 10) * factor;
            let times = (text::number(whole, 10) * scale + text::number(fraction, 10)) * factor;
            &&& value is Some ==> value->0 * scale == times
            &&& part % scale == 0 && part <= u128::MAX && scale <= u128::MAX && times
                <= u64::MAX * scale ==> value is Some
        }),
{
    let input = whole.push('.') + fraction + unit;
    let number = whole.push('.') + fraction;
    let end = number.len() as int;
    let dot = whole.len() as int;
    lemma_unit(unit, factor);
    assert forall|i: int| 0 <= i < end implies '0' <= #[trigger] input[i] <= '9' || input[i]
        == '.' by {
        if i < dot {
            assert(input[i] == whole[i]);
        } else if i > dot {
            assert(input[i] == fraction[i - dot - 1]);
        }
    }
    if end < input.len() {
        assert(input[end] == unit[0]);
    }
    lemma_number_end(input, 0, end);
    assert(input.take(end) =~= number);
    assert(input.skip(end) =~= unit);
    assert forall|i: int| 0 <= i < dot implies '0' <= #[trigger] number[i] <= '9' by {
        assert(number[i] == whole[i]);
    }
    lemma_first_dot(number, 0, dot);
    assert(number.take(dot) =~= whole);
    assert(number.skip(dot + 1) =~= fraction);
    if fraction.contains('.') {
        let i = fraction.index_of('.');
        assert('0' <= fraction[i] <= '9');
    }
    lemma_number(whole);
    lemma_number(fraction);
    let w = text::number(whole, 10);
    let f = text::number(fraction, 10);
    let scale = search::pow10(fraction.len());
    lemma_pow10(fraction.len());
    let part = f * factor;
    assert((w * scale + f) * factor == (w * factor) * scale + part) by (nonlinear_arith)
        requires
            part == f * factor,
    ;
    if part % scale == 0 {
        vstd::arithmetic::div_mod::lemma_fundamental_div_mod(part as int, scale as int);
        let bytes = w * factor + part / scale;
        assert(bytes * scale == (w * factor) * scale + part) by (nonlinear_arith)
            requires
                bytes == w * factor + part / scale,
                part == scale * (part / scale),
        ;
        assert(bytes * scale <= u64::MAX * scale ==> bytes <= u64::MAX) by (nonlinear_arith)
            requires
                scale > 0,
        ;
    }
}

proof fn lemma_pow10(n: nat)
    ensures
        search::pow10(n) > 0,
    decreases n,
{
    if n > 0 {
        lemma_pow10((n - 1) as nat);
    }
}

proof fn lemma_word_end(word: Seq<char>, from: int)
    requires
        0 <= from <= word.len(),
        forall|i: int| 0 <= i < word.len() ==> !text::is_space(#[trigger] word[i]),
    ensures
        search::word_end(word, from) == word.len(),
    decreases word.len() - from,
{
    if from < word.len() {
        lemma_word_end(word, from + 1);
    }
}

proof fn lemma_one_word(word: Seq<char>)
    requires
        word.len() > 0,
        word[0] != '"',
        forall|i: int| 0 <= i < word.len() ==> !text::is_space(#[trigger] word[i]),
    ensures
        search::query_value(word, 0) == match search::word_condition(word) {
            Ok(condition) => Ok::<Seq<Condition>, Seq<char>>(seq![condition]),
            Err(message) => Err(message),
        },
{
    lemma_word_end(word, 0);
    assert(word.subrange(0, word.len() as int) =~= word);
    assert(search::query_value(word, word.len() as int) == Ok::<Seq<Condition>, Seq<char>>(
        Seq::empty(),
    ));
    if search::word_condition(word) is Ok {
        let condition = search::word_condition(word)->Ok_0;
        assert(seq![condition] + Seq::<Condition>::empty() =~= seq![condition]);
    }
}

/// Whether a query is right, and finds exactly the files with one property.
pub open spec fn finds(
    query: Seq<char>,
    wanted: spec_fn(Seq<char>, u64) -> bool,
) -> bool {
    &&& search::query_value(query, 0) is Ok
    &&& forall|name: Seq<char>, size: u64| #[trigger]
        search::meets_all(search::query_value(query, 0)->Ok_0, name, size) == wanted(name, size)
}

proof fn lemma_meets_one(condition: Condition, name: Seq<char>, size: u64)
    ensures
        search::meets_all(seq![condition], name, size) == search::meets(condition, name, size),
{
    assert(seq![condition][0] == condition);
}

/// A word finds the files that have it in their names, whatever the case of ASCII letters;
/// one with a wildcard those whose names it fits as a whole.
pub proof fn lemma_word_finds(word: Seq<char>)
    requires
        word.len() > 0,
        word[0] != '"',
        word[0] != '<',
        word[0] != '>',
        word[0] != '=',
        forall|i: int| 0 <= i < word.len() ==> !text::is_space(#[trigger] word[i]),
    ensures
        !word.contains('*') && !word.contains('?') ==> finds(
            word,
            |name: Seq<char>, size: u64| text::contains_lowered(name, word),
        ),
        word.contains('*') || word.contains('?') ==> finds(
            word,
            |name: Seq<char>, size: u64| search::fits(word, name),
        ),
{
    lemma_one_word(word);
    let found = search::query_value(word, 0)->Ok_0;
    assert forall|name: Seq<char>, size: u64| #[trigger]
        search::meets_all(found, name, size) == search::meets(found[0], name, size) by {
        lemma_meets_one(found[0], name, size);
    }
}

/// A text between double quotes finds the files that have it in their names, whatever it
/// begins with and whatever spaces and wildcards it has.
pub proof fn lemma_quoted_finds(inner: Seq<char>)
    requires
        !inner.contains('"'),
    ensures
        finds(
            seq!['"'] + inner + seq!['"'],
            |name: Seq<char>, size: u64| text::contains_lowered(name, inner),
        ),
{
    let query = seq!['"'] + inner + seq!['"'];
    let close = inner.len() as int + 1;
    assert forall|i: int| 1 <= i < close implies #[trigger] query[i] != '"' by {
        assert(query[i] == inner[i - 1]);
        assert(inner.contains(inner[i - 1]));
    }
    assert(query[close] == '"');
    lemma_quote_end(query, 1, close);
    assert(query.subrange(1, close) =~= inner);
    assert(search::query_value(query, close + 1) == Ok::<Seq<Condition>, Seq<char>>(
        Seq::empty(),
    ));
    let condition = Condition::Name(inner);
    assert(seq![condition] + Seq::<Condition>::empty() =~= seq![condition]);
    assert(search::query_value(query, 0) == Ok::<Seq<Condition>, Seq<char>>(seq![condition]));
    assert forall|name: Seq<char>, size: u64| #[trigger]
        search::meets_all(seq![condition], name, size) == text::contains_lowered(name, inner) by {
        lemma_meets_one(condition, name, size);
    }
}

proof fn lemma_quote_end(input: Seq<char>, from: int, close: int)
    requires
        0 <= from <= close < input.len(),
        input[close] == '"',
        forall|i: int| from <= i < close ==> #[trigger] input[i] != '"',
    ensures
        search::quote_end(input, from) == close,
    decreases close - from,
{
    if from < close {
        assert(input[from] != '"');
        lemma_quote_end(input, from + 1, close);
    }
}

/// A size after a sign of comparison finds the files that are larger, smaller or as large,
/// as the sign says, whatever their names.
pub proof fn lemma_size_finds(n: nat, unit: Seq<char>, factor: nat)
    requires
        unit_is(unit, factor),
        n * factor <= u64::MAX,
    ensures
        ({
            let written = text::decimal(n) + unit;
            let bytes = n * factor;
            &&& finds(seq!['>'] + written, |name: Seq<char>, size: u64| size > bytes)
            &&& finds(seq!['>', '='] + written, |name: Seq<char>, size: u64| size >= bytes)
            &&& finds(seq!['='] + written, |name: Seq<char>, size: u64| size == bytes)
            &&& finds(seq!['<', '='] + written, |name: Seq<char>, size: u64| size <= bytes)
            &&& finds(seq!['<'] + written, |name: Seq<char>, size: u64| size < bytes)
        }),
{
    let written = text::decimal(n) + unit;
    let bytes = (n * factor) as u64;
    text::lemma_decimal_reads_back(n);
    lemma_unit(unit, factor);
    lemma_size_of_number(n, unit, factor);
    assert forall|i: int| 0 <= i < written.len() implies '0' <= #[trigger] written[i] <= 'z' by {
        if i < text::decimal(n).len() {
            assert(written[i] == text::decimal(n)[i]);
        } else {
            assert(written[i] == unit[i - text::decimal(n).len()]);
        }
    }
    assert(written[0] == text::decimal(n)[0]);
    lemma_sign(seq!['>'], Comparison::Greater, written, bytes);
    lemma_sign(seq!['>', '='], Comparison::GreaterEqual, written, bytes);
    lemma_sign(seq!['='], Comparison::Equal, written, bytes);
    lemma_sign(seq!['<', '='], Comparison::LessEqual, written, bytes);
    lemma_sign(seq!['<'], Comparison::Less, written, bytes);
}

proof fn lemma_sign(sign: Seq<char>, comparison: Comparison, written: Seq<char>, bytes: u64)
    requires
        sign.len() > 0,
        sign[0] != '"',
        forall|i: int| 0 <= i < sign.len() ==> '<' <= #[trigger] sign[i] <= '>',
        forall|i: int| 0 <= i < written.len() ==> '0' <= #[trigger] written[i] <= 'z',
        search::size_value(written) == Some(bytes),
        search::comparison_of(sign + written) == Some((comparison, sign.len() as int)),
    ensures
        search::query_value(sign + written, 0) == Ok::<Seq<Condition>, Seq<char>>(
            seq![Condition::Size(comparison, bytes)],
        ),
        forall|name: Seq<char>, size: u64| #[trigger]
            search::meets_all(seq![Condition::Size(comparison, bytes)], name, size)
                == search::compares(comparison, size, bytes),
{
    let word = sign + written;
    assert forall|i: int| 0 <= i < word.len() implies !text::is_space(#[trigger] word[i]) by {
        if i < sign.len() {
            assert(word[i] == sign[i]);
        } else {
            assert(word[i] == written[i - sign.len()]);
        }
    }
    assert(word.skip(sign.len() as int) =~= written);
    lemma_one_word(word);
    let condition = Condition::Size(comparison, bytes);
    assert forall|name: Seq<char>, size: u64| #[trigger]
        search::meets_all(seq![condition], name, size) == search::compares(
            comparison,
            size,
            bytes,
        ) by {
        lemma_meets_one(condition, name, size);
    }
}

} // verus!
