//! Character-level helpers on names and labels.

use vstd::prelude::*;

verus! {

/// `String::push` appends one character at the end of the string.
pub assume_specification[ String::push ](s: &mut String, c: char)
    ensures
        final(s)@ == old(s)@.push(c),
;

/// `==` on string slices compares the characters.
pub assume_specification[ <str as PartialEq>::eq ](a: &str, b: &str) -> (same: bool)
    ensures
        same == (a@ == b@),
;

/// The characters of `s`, in order.
pub fn chars_of(s: &str) -> (chars: Vec<char>)
    ensures
        chars@ == s@,
{
    let mut chars: Vec<char> = Vec::new();
    for c in it: s.chars()
        invariant
            chars@ == it.seq().take(it.index()),
            it.seq() == s@,
    {
        chars.push(c);
    }
    chars
}

/// The string made of the characters `chars[from..to]`.
pub fn string_from(chars: &[char], from: usize, to: usize) -> (s: String)
    requires
        from <= to <= chars@.len(),
    ensures
        s@ == chars@.subrange(from as int, to as int),
{
    let mut s = String::new();
    let mut i: usize = from;
    while i < to
        invariant
            from <= i <= to <= chars@.len(),
            s@ == chars@.subrange(from as int, i as int),
        decreases to - i,
    {
        s.push(chars[i]);
        i += 1;
    }
    s
}

/// `c` with an ASCII capital letter turned into the small one.
pub open spec fn lower(c: char) -> char {
    if 'A' <= c && c <= 'Z' {
        (c as u32 + 32) as char
    } else {
        c
    }
}

/// `text` with its ASCII capital letters turned into small ones.
pub open spec fn lowered(text: Seq<char>) -> Seq<char> {
    text.map_values(|c: char| lower(c))
}

/// `c` with an ASCII capital letter turned into the small one.
pub fn to_lower(c: char) -> (l: char)
    ensures
        l == lower(c),
{
    if 'A' <= c && c <= 'Z' {
        (c as u8 + 32u8) as char
    } else {
        c
    }
}

/// Whether `part` stands in `whole` at `at`, ASCII case aside.
pub open spec fn stands_at(whole: Seq<char>, part: Seq<char>, at: int) -> bool {
    0 <= at && at + part.len() <= whole.len() && lowered(whole.subrange(at, at + part.len()))
        == lowered(part)
}

/// Whether `part` stands anywhere in `whole`, ASCII case aside.
pub open spec fn contains_lowered(whole: Seq<char>, part: Seq<char>) -> bool {
    exists|at: int| stands_at(whole, part, at)
}

/// Whether `part` stands in `whole` at `at`, ASCII case aside.
fn is_at(whole: &Vec<char>, part: &Vec<char>, at: usize) -> (found: bool)
    requires
        at + part@.len() <= whole@.len(),
    ensures
        found == stands_at(whole@, part@, at as int),
{
    let ghost here = whole@.subrange(at as int, at + part@.len());
    let mut i: usize = 0;
    while i < part.len()
        invariant
            i <= part@.len(),
            at + part@.len() <= whole.len(),
            here == whole@.subrange(at as int, at + part@.len()),
            forall|k: int| 0 <= k < i ==> lower(here[k]) == lower(#[trigger] part@[k]),
        decreases part@.len() - i,
    {
        if to_lower(whole[at + i]) != to_lower(part[i]) {
            assert(lowered(here)[i as int] != lowered(part@)[i as int]);
            return false;
        }
        i += 1;
    }
    assert(lowered(here) =~= lowered(part@));
    true
}

/// Whether `needle` stands anywhere in `haystack`, ASCII case aside. The empty
/// needle always does.
pub fn contains_case_insensitive(haystack: &str, needle: &str) -> (found: bool)
    ensures
        found == contains_lowered(haystack@, needle@),
{
    let whole = chars_of(haystack);
    let part = chars_of(needle);
    if part.len() > whole.len() {
        return false;
    }
    let last: usize = whole.len() - part.len();
    let mut at: usize = 0;
    loop
        invariant
            whole@ == haystack@,
            part@ == needle@,
            last == whole@.len() - part@.len(),
            at <= last,
            forall|k: int| 0 <= k < at ==> !stands_at(haystack@, needle@, k),
        decreases last - at,
    {
        if is_at(&whole, &part, at) {
            return true;
        }
        if at == last {
            return false;
        }
        at += 1;
    }
}

/// Whether both texts are the same, ASCII case aside.
pub fn eq_ignore_case(a: &str, b: &str) -> (same: bool)
    ensures
        same == (lowered(a@) == lowered(b@)),
{
    let x = chars_of(a);
    let y = chars_of(b);
    if x.len() != y.len() {
        assert(lowered(a@).len() != lowered(b@).len());
        return false;
    }
    let same = is_at(&x, &y, 0);
    assert(x@.subrange(0, y@.len() as int) =~= x@);
    same
}

/// Where the text after the last dot begins; 0 where there is no dot.
pub open spec fn extension_start(name: Seq<char>) -> nat
    decreases name.len(),
{
    if name.len() == 0 || name.last() == '.' {
        name.len()
    } else {
        extension_start(name.drop_last())
    }
}

/// What follows the last dot; the whole name where there is no dot.
pub open spec fn extension(name: Seq<char>) -> Seq<char> {
    name.skip(extension_start(name) as int)
}

/// What follows the last dot; the whole name where there is no dot.
pub fn extension_of(name: &str) -> (ext: String)
    ensures
        ext@ == extension(name@),
{
    let chars = chars_of(name);
    let mut start: usize = chars.len();
    assert(chars@.take(start as int) =~= name@);
    while start > 0 && chars[start - 1] != '.'
        invariant
            start <= chars@.len(),
            chars@ == name@,
            extension_start(chars@.take(start as int)) == extension_start(name@),
        decreases start,
    {
        assert(chars@.take(start as int).drop_last() =~= chars@.take(start - 1));
        start -= 1;
    }
    assert(extension_start(name@) == start);
    assert(chars@.subrange(start as int, chars@.len() as int) =~= extension(name@));
    string_from(chars.as_slice(), start, chars.len())
}

/// `text` with its ASCII capital letters turned into small ones.
pub fn to_lowered(text: &str) -> (low: String)
    ensures
        low@ == lowered(text@),
{
    let mut low = String::new();
    let ghost all = text@;
    for c in it: text.chars()
        invariant
            it.seq() == all,
            low@ == lowered(all.take(it.index())),
    {
        let ghost before = all.take(it.index());
        low.push(to_lower(c));
        assert(low@ =~= lowered(all.take(it.index() + 1)));
    }
    assert(all.take(all.len() as int) =~= all);
    low
}

/// What follows the last dot, in small letters; the whole name where there is
/// no dot.
pub fn lower_extension(name: &str) -> (ext: String)
    ensures
        ext@ == lowered(extension(name@)),
{
    to_lowered(extension_of(name).as_str())
}

/// Whether the name begins with a dot.
pub open spec fn dotted(name: Seq<char>) -> bool {
    name.len() > 0 && name[0] == '.'
}

/// Whether the name begins with a dot.
pub fn starts_with_dot(name: &str) -> (yes: bool)
    ensures
        yes == dotted(name@),
{
    !name.is_empty() && name.get_char(0) == '.'
}

/// Whether `name` is one of `list`, ASCII case aside.
pub open spec fn listed_lowered(name: Seq<char>, list: Seq<&'static str>) -> bool {
    exists|i: int| 0 <= i < list.len() && lowered(#[trigger] list[i]@) == lowered(name)
}

/// Whether `name` is one of `list`, ASCII case aside.
pub fn is_listed_lowered(name: &str, list: &[&'static str]) -> (found: bool)
    ensures
        found == listed_lowered(name@, list@),
{
    let mut i: usize = 0;
    while i < list.len()
        invariant
            i <= list@.len(),
            forall|k: int| 0 <= k < i ==> lowered(#[trigger] list@[k]@) != lowered(name@),
        decreases list@.len() - i,
    {
        if eq_ignore_case(list[i], name) {
            return true;
        }
        i += 1;
    }
    false
}

/// Whether `name` is one of `list`.
pub open spec fn listed(name: Seq<char>, list: Seq<&'static str>) -> bool {
    exists|i: int| 0 <= i < list.len() && #[trigger] list[i]@ == name
}

/// Whether `name` is one of `list`.
pub fn is_listed(name: &str, list: &[&'static str]) -> (found: bool)
    ensures
        found == listed(name@, list@),
{
    let mut i: usize = 0;
    while i < list.len()
        invariant
            i <= list@.len(),
            forall|k: int| 0 <= k < i ==> #[trigger] list@[k]@ != name@,
        decreases list@.len() - i,
    {
        if name.eq(list[i]) {
            return true;
        }
        i += 1;
    }
    false
}

/// The digit of `n`, which is below ten.
pub open spec fn digit(n: nat) -> char {
    (48 + n) as char
}

/// `n` written in decimal.
pub open spec fn decimal(n: nat) -> Seq<char>
    decreases n,
{
    if n < 10 {
        seq![digit(n)]
    } else {
        decimal(n / 10).push(digit(n % 10))
    }
}

/// Appends `n`, written in decimal.
pub fn push_decimal(text: &mut String, n: u64)
    ensures
        final(text)@ == old(text)@ + decimal(n as nat),
    decreases n,
{
    if n >= 10 {
        push_decimal(text, n / 10);
    }
    text.push((48u8 + (n % 10) as u8) as char);
    assert(text@ =~= old(text)@ + decimal(n as nat));
}

/// The hexadecimal digit of `n`, which is below sixteen.
pub open spec fn hex_digit(n: nat) -> char {
    if n < 10 {
        (48 + n) as char
    } else {
        (87 + n) as char
    }
}

/// `n` written in hexadecimal, with small letters.
pub open spec fn hex(n: nat) -> Seq<char>
    decreases n,
{
    if n < 16 {
        seq![hex_digit(n)]
    } else {
        hex(n / 16).push(hex_digit(n % 16))
    }
}

/// The last `width` digits of `n` in hexadecimal.
pub open spec fn hex_padded(n: nat, width: nat) -> Seq<char>
    decreases width,
{
    if width == 0 {
        Seq::empty()
    } else {
        hex_padded(n / 16, (width - 1) as nat).push(hex_digit(n % 16))
    }
}

fn to_hex_digit(n: u8) -> (c: char)
    requires
        n < 16,
    ensures
        c == hex_digit(n as nat),
{
    if n < 10 {
        (48 + n) as char
    } else {
        (87 + n) as char
    }
}

/// Appends `n`, written in hexadecimal.
pub fn push_hex(text: &mut String, n: u128)
    ensures
        final(text)@ == old(text)@ + hex(n as nat),
    decreases n,
{
    if n >= 16 {
        push_hex(text, n / 16);
    }
    text.push(to_hex_digit((n % 16) as u8));
    assert(text@ =~= old(text)@ + hex(n as nat));
}

/// Appends the last `width` hexadecimal digits of `n`.
pub fn push_hex_padded(text: &mut String, n: u128, width: u32)
    ensures
        final(text)@ == old(text)@ + hex_padded(n as nat, width as nat),
    decreases width,
{
    if width > 0 {
        push_hex_padded(text, n / 16, width - 1);
        text.push(to_hex_digit((n % 16) as u8));
    }
    assert(text@ =~= old(text)@ + hex_padded(n as nat, width as nat));
}

/// A copy of `text`.
pub fn owned(text: &str) -> (copy: String)
    ensures
        copy@ == text@,
{
    String::from_str(text)
}

/// Whether `text` ends with `tail`.
pub open spec fn has_suffix(text: Seq<char>, tail: Seq<char>) -> bool {
    tail.len() <= text.len() && text.skip(text.len() - tail.len()) == tail
}

/// Whether `text` begins with `head`.
pub open spec fn has_prefix(text: Seq<char>, head: Seq<char>) -> bool {
    head.len() <= text.len() && text.take(head.len() as int) == head
}

/// Whether `text` ends with `tail`.
pub fn ends_with(text: &str, tail: &str) -> (yes: bool)
    ensures
        yes == has_suffix(text@, tail@),
{
    let whole = chars_of(text);
    let part = chars_of(tail);
    if part.len() > whole.len() {
        return false;
    }
    let rest = string_from(whole.as_slice(), whole.len() - part.len(), whole.len());
    assert(rest@ =~= text@.skip(text@.len() - tail@.len()));
    rest.as_str().eq(tail)
}

/// Whether `text` begins with `head`.
pub fn begins_with(text: &str, head: &str) -> (yes: bool)
    ensures
        yes == has_prefix(text@, head@),
{
    let whole = chars_of(text);
    let part = chars_of(head);
    if part.len() > whole.len() {
        return false;
    }
    let start = string_from(whole.as_slice(), 0, part.len());
    assert(start@ =~= text@.take(head@.len() as int));
    start.as_str().eq(head)
}

/// Whether `c` separates words: the characters with Unicode's White_Space
/// property.
pub open spec fn is_space(c: char) -> bool {
    ||| '\u{9}' <= c && c <= '\u{d}'
    ||| c == ' '
    ||| c == '\u{85}'
    ||| c == '\u{a0}'
    ||| c == '\u{1680}'
    ||| '\u{2000}' <= c && c <= '\u{200a}'
    ||| c == '\u{2028}'
    ||| c == '\u{2029}'
    ||| c == '\u{202f}'
    ||| c == '\u{205f}'
    ||| c == '\u{3000}'
}

pub fn is_white(c: char) -> (white: bool)
    ensures
        white == is_space(c),
{
    ('\u{9}' <= c && c <= '\u{d}') || c == ' ' || c == '\u{85}' || c == '\u{a0}' || c == '\u{1680}'
        || ('\u{2000}' <= c && c <= '\u{200a}') || c == '\u{2028}' || c == '\u{2029}' || c
        == '\u{202f}' || c == '\u{205f}' || c == '\u{3000}'
}

/// Whether two characters are the same, or the same ASCII letter in the other case.
pub open spec fn alike(a: char, b: char) -> bool {
    ||| a == b
    ||| 'a' <= a && a <= 'z' && a as int == b as int + 32
    ||| 'a' <= b && b <= 'z' && b as int == a as int + 32
}

/// Whether two texts agree character by character, but for the case of ASCII letters.
pub open spec fn all_alike(a: Seq<char>, b: Seq<char>) -> bool {
    a.len() == b.len() && forall|i: int| 0 <= i < a.len() ==> alike(a[i], #[trigger] b[i])
}

/// Small letters tell texts apart exactly where they differ in more than the case of
/// ASCII letters.
pub proof fn lemma_alike(a: Seq<char>, b: Seq<char>)
    ensures
        lowered(a) == lowered(b) <==> all_alike(a, b),
{
    if lowered(a) == lowered(b) {
        assert(lowered(a).len() == a.len() && lowered(b).len() == b.len());
        assert forall|i: int| 0 <= i < a.len() implies alike(a[i], #[trigger] b[i]) by {
            assert(lowered(a)[i] == lowered(b)[i]);
            assert(lower(a[i]) == lower(b[i]));
        }
    }
    if all_alike(a, b) {
        assert forall|i: int| 0 <= i < a.len() implies #[trigger] lowered(a)[i] == lowered(
            b,
        )[i] by {
            assert(alike(a[i], b[i]));
        }
        assert(lowered(a) =~= lowered(b));
    }
}

/// A text is found wherever it stands: at the beginning, in the middle or at the end of
/// another, whatever the case of the ASCII letters of either.
pub proof fn lemma_piece_is_found(
    before: Seq<char>,
    piece: Seq<char>,
    after: Seq<char>,
    part: Seq<char>,
)
    requires
        all_alike(piece, part),
    ensures
        contains_lowered(before + piece + after, part),
{
    let whole = before + piece + after;
    lemma_alike(piece, part);
    let at = before.len() as int;
    assert(whole.subrange(at, at + part.len()) =~= piece);
    assert(stands_at(whole, part, at));
}

/// Nothing else is found: what is found is a piece of the text, but for the case of ASCII
/// letters.
pub proof fn lemma_found_is_piece(whole: Seq<char>, part: Seq<char>)
    requires
        contains_lowered(whole, part),
    ensures
        exists|before: Seq<char>, piece: Seq<char>, after: Seq<char>|
            whole == #[trigger] (before + piece + after) && all_alike(piece, part),
{
    let at = choose|at: int| stands_at(whole, part, at);
    let before = whole.take(at);
    let piece = whole.subrange(at, at + part.len());
    let after = whole.skip(at + part.len());
    lemma_alike(piece, part);
    assert(whole =~= before + piece + after);
}

/// The extension is what follows the last dot, whatever stands before it; a name without
/// a dot is its own.
pub proof fn lemma_extension(stem: Seq<char>, ext: Seq<char>)
    requires
        !ext.contains('.'),
    ensures
        extension(stem.push('.') + ext) == ext,
        extension(ext) == ext,
{
    lemma_extension_start(stem.push('.'), ext);
    assert(extension_start(stem.push('.')) == stem.len() + 1);
    assert(extension(stem.push('.') + ext) =~= ext);
    lemma_extension_start(Seq::empty(), ext);
    assert(Seq::<char>::empty() + ext =~= ext);
    assert(extension(ext) =~= ext);
}

proof fn lemma_extension_start(front: Seq<char>, ext: Seq<char>)
    requires
        !ext.contains('.'),
    ensures
        extension_start(front + ext) == extension_start(front),
    decreases ext.len(),
{
    if ext.len() == 0 {
        assert(front + ext =~= front);
    } else {
        let less = ext.drop_last();
        assert(ext.contains(ext.last()));
        assert forall|i: int| 0 <= i < less.len() implies less[i] != '.' by {
            assert(ext.contains(ext[i]));
        }
        lemma_extension_start(front, less);
        assert((front + ext).drop_last() =~= front + less);
    }
}

/// The number that digits of a base write.
pub open spec fn number(text: Seq<char>, base: nat) -> nat
    decreases text.len(),
{
    if text.len() == 0 {
        0
    } else {
        let c = text.last();
        let n = if '0' <= c && c <= '9' {
            c as int - '0' as int
        } else {
            c as int - 'a' as int + 10
        };
        number(text.drop_last(), base) * base + n as nat
    }
}

/// What is written in decimal is read as the number it was, has digits only, and begins
/// with no needless zero.
pub proof fn lemma_decimal_reads_back(n: nat)
    ensures
        number(decimal(n), 10) == n,
        decimal(n).len() > 0,
        forall|i: int| 0 <= i < decimal(n).len() ==> '0' <= #[trigger] decimal(n)[i] <= '9',
        n > 0 ==> decimal(n)[0] != '0',
    decreases n,
{
    if n < 10 {
        assert(decimal(n).drop_last() =~= Seq::<char>::empty());
        assert(number(Seq::<char>::empty(), 10) == 0);
    } else {
        lemma_decimal_reads_back(n / 10);
        assert(decimal(n).drop_last() =~= decimal(n / 10));
        assert(number(decimal(n / 10), 10) * 10 + n % 10 == n);
    }
}

/// What is written in hexadecimal is read as the number it was.
pub proof fn lemma_hex_reads_back(n: nat)
    ensures
        number(hex(n), 16) == n,
        hex(n).len() > 0,
    decreases n,
{
    if n < 16 {
        assert(hex(n).drop_last() =~= Seq::<char>::empty());
        assert(number(Seq::<char>::empty(), 16) == 0);
    } else {
        lemma_hex_reads_back(n / 16);
        assert(hex(n).drop_last() =~= hex(n / 16));
        assert(number(hex(n / 16), 16) * 16 + n % 16 == n);
    }
}

/// A number in a fixed width keeps that width, and is read as the number it was where
/// the width has room for it.
pub proof fn lemma_hex_padded_reads_back(n: nat, width: nat)
    ensures
        hex_padded(n, width).len() == width,
        number(hex_padded(n, width), 16) <= n,
        n < vstd::arithmetic::power::pow(16, width) ==> number(hex_padded(n, width), 16) == n,
    decreases width,
{
    if width == 0 {
        vstd::arithmetic::power::lemma_pow0(16);
    } else {
        let less = (width - 1) as nat;
        lemma_hex_padded_reads_back(n / 16, less);
        assert(hex_padded(n, width).drop_last() =~= hex_padded(n / 16, less));
        let rest = number(hex_padded(n / 16, less), 16);
        assert(number(hex_padded(n, width), 16) == rest * 16 + n % 16);
        if n < vstd::arithmetic::power::pow(16, width) {
            reveal(vstd::arithmetic::power::pow);
            assert(n / 16 < vstd::arithmetic::power::pow(16, less));
        }
    }
}

/// The search finds a text in every text that it is a piece of, whatever the case of ASCII
/// letters, and in no other.
pub proof fn lemma_search_finds(
    whole: &str,
    part: &str,
    found: bool,
    before: Seq<char>,
    piece: Seq<char>,
    after: Seq<char>,
)
    requires
        call_ensures(contains_case_insensitive, (whole, part), found),
    ensures
        whole@ == before + piece + after && all_alike(piece, part@) ==> found,
        found ==> exists|head: Seq<char>, here: Seq<char>, tail: Seq<char>|
            whole@ == #[trigger] (head + here + tail) && all_alike(here, part@),
{
    if whole@ == before + piece + after && all_alike(piece, part@) {
        lemma_piece_is_found(before, piece, after, part@);
    }
    if found {
        lemma_found_is_piece(whole@, part@);
    }
}

} // verus!
