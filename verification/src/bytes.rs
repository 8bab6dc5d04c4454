//! Numbers and texts inside byte buffers.

use vstd::prelude::*;

verus! {

/// The little-endian 16-bit number at `at`.
pub open spec fn le16(bytes: Seq<u8>, at: int) -> nat {
    bytes[at] as nat + 0x100 * bytes[at + 1] as nat
}

/// The little-endian 32-bit number at `at`.
pub open spec fn le32(bytes: Seq<u8>, at: int) -> nat {
    le16(bytes, at) + 0x1_0000 * le16(bytes, at + 2)
}

/// The little-endian 64-bit number at `at`.
pub open spec fn le64(bytes: Seq<u8>, at: int) -> nat {
    le32(bytes, at) + 0x1_0000_0000 * le32(bytes, at + 4)
}

/// The little-endian 128-bit number at `at`.
pub open spec fn le128(bytes: Seq<u8>, at: int) -> nat {
    le64(bytes, at) + 0x1_0000_0000_0000_0000 * le64(bytes, at + 8)
}

pub fn read_u16(bytes: &[u8], at: usize) -> (n: u16)
    requires
        at + 2 <= bytes.len(),
    ensures
        n == le16(bytes@, at as int),
{
    bytes[at] as u16 + 0x100 * (bytes[at + 1] as u16)
}

pub fn read_u32(bytes: &[u8], at: usize) -> (n: u32)
    requires
        at + 4 <= bytes.len(),
    ensures
        n == le32(bytes@, at as int),
{
    read_u16(bytes, at) as u32 + 0x1_0000 * (read_u16(bytes, at + 2) as u32)
}

pub fn read_u64(bytes: &[u8], at: usize) -> (n: u64)
    requires
        at + 8 <= bytes.len(),
    ensures
        n == le64(bytes@, at as int),
{
    read_u32(bytes, at) as u64 + 0x1_0000_0000 * (read_u32(bytes, at + 4) as u64)
}

pub fn read_u128(bytes: &[u8], at: usize) -> (n: u128)
    requires
        at + 16 <= bytes.len(),
    ensures
        n == le128(bytes@, at as int),
{
    read_u64(bytes, at) as u128 + 0x1_0000_0000_0000_0000 * (read_u64(bytes, at + 8) as u128)
}

/// The `n` little-endian 16-bit units from `at` on.
pub open spec fn units_at(bytes: Seq<u8>, at: int, n: nat) -> Seq<u16> {
    Seq::new(n, |i: int| le16(bytes, at + 2 * i) as u16)
}

pub fn read_units(bytes: &[u8], at: usize, n: usize) -> (units: Vec<u16>)
    requires
        at + 2 * n <= bytes.len(),
    ensures
        units@ == units_at(bytes@, at as int, n as nat),
{
    let mut units: Vec<u16> = Vec::new();
    let mut i: usize = 0;
    while i < n
        invariant
            i <= n,
            at + 2 * n <= bytes.len(),
            units@ == units_at(bytes@, at as int, i as nat),
        decreases n - i,
    {
        units.push(read_u16(bytes, at + 2 * i));
        i += 1;
        assert(units@ =~= units_at(bytes@, at as int, i as nat));
    }
    units
}

/// Whether a unit is half of a surrogate pair.
pub open spec fn is_surrogate(unit: u16) -> bool {
    0xD800 <= unit && unit <= 0xDFFF
}

/// Whether two units are the first and the second half of a surrogate pair.
pub open spec fn is_pair(first: u16, second: u16) -> bool {
    0xD800 <= first && first < 0xDC00 && 0xDC00 <= second && second <= 0xDFFF
}

/// The text in UTF-16 units. A unit that is not half of a surrogate pair stands for the
/// character with that number, a pair for one character, and a half alone for the
/// replacement character.
pub open spec fn utf16_text(units: Seq<u16>) -> Seq<char>
    decreases units.len(),
{
    if units.len() == 0 {
        Seq::empty()
    } else if !is_surrogate(units[0]) {
        seq![units[0] as char] + utf16_text(units.skip(1))
    } else if units.len() > 1 && is_pair(units[0], units[1]) {
        seq![(0x1_0000 + (units[0] - 0xD800) * 0x400 + (units[1] - 0xDC00)) as char] + utf16_text(
            units.skip(2),
        )
    } else {
        seq!['\u{FFFD}'] + utf16_text(units.skip(1))
    }
}

/// `String::from_utf16_lossy`: decodes UTF-16, with a replacement character for each
/// unit that is half of a surrogate pair without the other half.
#[verifier::external_body]
pub(crate) fn decode_utf16(units: &[u16]) -> (text: String)
    ensures
        text@ == utf16_text(units@),
{
    String::from_utf16_lossy(units)
}

/// What `String::from_utf8_lossy` makes of bytes.
pub uninterp spec fn utf8_text(bytes: Seq<u8>) -> Seq<char>;

/// `String::from_utf8_lossy`: decodes UTF-8, with a replacement character for
/// what is not valid. Valid UTF-8 is the encoding of what it is decoded to.
#[verifier::external_body]
pub(crate) fn decode_utf8(bytes: &[u8]) -> (text: String)
    ensures
        text@ == utf8_text(bytes@),
        vstd::utf8::valid_utf8(bytes@) ==> vstd::utf8::encode_utf8(text@) == bytes@,
{
    String::from_utf8_lossy(bytes).into_owned()
}

/// Each byte of a number counts 256 times the one before it.
pub proof fn lemma_little_endian(bytes: Seq<u8>, at: int)
    ensures
        le16(bytes, at) == bytes[at] + 256 * bytes[at + 1],
        le32(bytes, at) == bytes[at] + 256 * bytes[at + 1] + 65536 * bytes[at + 2] + 16777216
            * bytes[at + 3],
        le64(bytes, at) == le32(bytes, at) + 4294967296 * (bytes[at + 4] + 256 * bytes[at + 5]
            + 65536 * bytes[at + 6] + 16777216 * bytes[at + 7]),
        le128(bytes, at) == le64(bytes, at) + 18446744073709551616 * le64(bytes, at + 8),
{
}

/// A number that was written with its lowest byte first is read as it was.
pub proof fn lemma_reads_back(n: nat)
    requires
        n <= u32::MAX,
    ensures
        le32(
            seq![
                (n % 256) as u8,
                (n / 256 % 256) as u8,
                (n / 65536 % 256) as u8,
                (n / 16777216) as u8,
            ],
            0,
        ) == n,
        n <= u16::MAX ==> le16(seq![(n % 256) as u8, (n / 256) as u8], 0) == n,
{
}

/// A plain letter is read from UTF-16 as it is, and so is what follows it.
pub proof fn lemma_utf16_plain(unit: u16, more: Seq<u16>)
    requires
        unit < 0xD800 || unit > 0xDFFF,
    ensures
        utf16_text(seq![unit] + more) == seq![unit as char] + utf16_text(more),
{
    let units = seq![unit] + more;
    assert(units[0] == unit);
    assert(units.skip(1) =~= more);
}

} // verus!
