//! Names and paths as Windows spells them.

use vstd::prelude::*;

use crate::bytes;
use crate::bytes::decode_utf16;
use crate::text;
use crate::text::{begins_with, chars_of, owned, string_from};

verus! {

pub const BACKSLASH: u16 = 92;

pub const SLASH: u16 = 47;

pub const COLON: u16 = 58;

pub const QUESTION: u16 = 63;

/// The drive type of fixed disks.
pub const DRIVE_FIXED: u32 = 3;

/// The drive type of removable disks.
pub const DRIVE_REMOVABLE: u32 = 2;

/// How many of `units`, from `from` on, stand before the first NUL, counted
/// from the start.
pub open spec fn nul_position(units: Seq<u16>, from: nat) -> nat
    decreases units.len() - from,
{
    if from >= units.len() || units[from as int] == 0 {
        from
    } else {
        nul_position(units, from + 1)
    }
}

/// The units before the first NUL; all of them where there is none.
pub open spec fn until_nul(units: Seq<u16>) -> Seq<u16> {
    units.take(nul_position(units, 0) as int)
}

proof fn lemma_nul_position(units: Seq<u16>, from: nat)
    requires
        from <= units.len(),
    ensures
        from <= nul_position(units, from) <= units.len(),
    decreases units.len() - from,
{
    if from < units.len() && units[from as int] != 0 {
        lemma_nul_position(units, from + 1);
    }
}

/// Where the first NUL of `units` is; their number where there is none.
pub(crate) fn find_nul(units: &[u16]) -> (at: usize)
    ensures
        at == nul_position(units@, 0),
        at <= units@.len(),
{
    let mut at: usize = 0;
    proof {
        lemma_nul_position(units@, 0);
    }
    while at < units.len() && units[at] != 0
        invariant
            at <= units@.len(),
            nul_position(units@, at as nat) == nul_position(units@, 0),
        decreases units@.len() - at,
    {
        at += 1;
    }
    at
}

/// The text before the first NUL of a buffer.
pub fn trim_wide_nul(buf: &[u16]) -> (name: String)
    ensures
        name@ == bytes::utf16_text(until_nul(buf@)),
{
    let end: usize = find_nul(buf);
    decode_utf16(vstd::slice::slice_subrange(buf, 0, end))
}

/// `units` with a NUL at the end.
pub fn wide_null(units: &[u16]) -> (out: Vec<u16>)
    ensures
        out@ == units@.push(0),
{
    let mut out: Vec<u16> = Vec::new();
    push_units(&mut out, units);
    out.push(0);
    out
}

fn push_units(out: &mut Vec<u16>, units: &[u16])
    ensures
        final(out)@ == old(out)@ + units@,
{
    let mut i: usize = 0;
    let ghost before = out@;
    assert(before + units@.take(0) =~= before);
    while i < units.len()
        invariant
            i <= units@.len(),
            out@ == before + units@.take(i as int),
        decreases units@.len() - i,
    {
        out.push(units[i]);
        i += 1;
        assert(out@ =~= before + units@.take(i as int));
    }
    assert(units@.take(i as int) =~= units@);
}

/// Whether a path begins with two backslashes.
pub open spec fn is_unc(path: Seq<u16>) -> bool {
    path.len() >= 2 && path[0] == BACKSLASH && path[1] == BACKSLASH
}

/// Whether a path begins with `\\?\`.
pub open spec fn is_verbatim(path: Seq<u16>) -> bool {
    is_unc(path) && path.len() >= 4 && path[2] == QUESTION && path[3] == BACKSLASH
}

/// `path` in verbatim form: `\\?\` before a drive, `\\?\UNC\` in place of the
/// two backslashes before a share.
pub open spec fn verbatim(path: Seq<u16>) -> Seq<u16> {
    if is_verbatim(path) {
        path
    } else if is_unc(path) {
        seq![92u16, 92, 63, 92, 85, 78, 67, 92] + path.skip(2)
    } else if path.len() >= 2 && path[1] == COLON {
        seq![92u16, 92, 63, 92] + path
    } else {
        path
    }
}

/// The verbatim form of `src`, with a NUL at the end.
pub fn to_verbatim_wide(src: &[u16]) -> (out: Vec<u16>)
    ensures
        out@ == verbatim(src@).push(0),
{
    let unc: bool = src.len() >= 2 && src[0] == BACKSLASH && src[1] == BACKSLASH;
    let mut out: Vec<u16> = Vec::new();
    if unc && src.len() >= 4 && src[2] == QUESTION && src[3] == BACKSLASH {
        push_units(&mut out, src);
    } else if unc {
        out = vec![92u16, 92, 63, 92, 85, 78, 67, 92];
        let ghost head = out@;
        assert(head =~= seq![92u16, 92, 63, 92, 85, 78, 67, 92]);
        push_units(&mut out, vstd::slice::slice_subrange(src, 2, src.len()));
        assert(out@ =~= verbatim(src@));
    } else if src.len() >= 2 && src[1] == COLON {
        out = vec![92u16, 92, 63, 92];
        assert(out@ =~= seq![92u16, 92, 63, 92]);
        push_units(&mut out, src);
    } else {
        push_units(&mut out, src);
    }
    assert(out@ =~= verbatim(src@));
    out.push(0);
    out
}

/// A path that has a verbatim form keeps it.
pub proof fn lemma_verbatim_once(path: Seq<u16>)
    ensures
        verbatim(verbatim(path)) == verbatim(path),
{
}

pub const VERBATIM_SHARE: &'static str = "\\\\?\\UNC\\";

pub const VERBATIM: &'static str = "\\\\?\\";

pub const SHARE: &'static str = "\\\\";

/// `path` without the verbatim prefix.
pub open spec fn simplified(path: Seq<char>) -> Seq<char> {
    if text::has_prefix(path, VERBATIM_SHARE@) {
        SHARE@ + path.skip(VERBATIM_SHARE@.len() as int)
    } else if text::has_prefix(path, VERBATIM@) {
        path.skip(VERBATIM@.len() as int)
    } else {
        path
    }
}

/// The end of `text` after its first `n` characters.
fn after(text: &str, n: usize) -> (rest: String)
    requires
        n <= text@.len(),
    ensures
        rest@ == text@.skip(n as int),
{
    let chars = chars_of(text);
    let rest = string_from(chars.as_slice(), n, chars.len());
    assert(rest@ =~= text@.skip(n as int));
    rest
}

/// `path` without the prefix that marks it verbatim.
pub fn strip_verbatim_prefix(path: &str) -> (plain: String)
    ensures
        plain@ == simplified(path@),
{
    if begins_with(path, VERBATIM_SHARE) {
        proof {
            reveal_strlit("\\\\?\\UNC\\");
        }
        let mut plain = owned(SHARE);
        plain.append(after(path, 8).as_str());
        plain
    } else if begins_with(path, VERBATIM) {
        proof {
            reveal_strlit("\\\\?\\");
        }
        after(path, 4)
    } else {
        owned(path)
    }
}

/// `p` without the four characters that mark a path verbatim. What is left of
/// a verbatim share begins with its `UNC`.
pub fn dunce_simplified(p: &str) -> (plain: String)
    ensures
        plain@ == (if text::has_prefix(p@, VERBATIM@) {
            p@.skip(VERBATIM@.len() as int)
        } else {
            p@
        }),
{
    if begins_with(p, VERBATIM) {
        proof {
            reveal_strlit("\\\\?\\");
        }
        after(p, 4)
    } else {
        owned(p)
    }
}

/// `c` with an ASCII small letter turned into the capital.
pub open spec fn upper(c: char) -> char {
    if 'a' <= c && c <= 'z' {
        (c as u32 - 32) as char
    } else {
        c
    }
}

fn to_upper(c: char) -> (u: char)
    ensures
        u == upper(c),
{
    if 'a' <= c && c <= 'z' {
        (c as u8 - 32) as char
    } else {
        c
    }
}

/// The device of the volume with the root `root`: `\\.\` before its drive.
/// None where the root has no drive.
pub open spec fn volume_device(root: Seq<char>) -> Option<Seq<char>> {
    if root.len() >= 2 && root[1] == ':' {
        Some("\\\\.\\"@.push(upper(root[0])).push(':'))
    } else {
        None
    }
}

pub fn volume_device_from_root(root: &str) -> (device: Option<String>)
    ensures
        match device {
            Some(device) => volume_device(root@) == Some(device@),
            None => volume_device(root@) is None,
        },
{
    let chars = chars_of(root);
    if chars.len() < 2 || chars[1] != ':' {
        return None;
    }
    let mut device = owned("\\\\.\\");
    device.push(to_upper(chars[0]));
    device.push(':');
    Some(device)
}

/// What is asked for the space on a path: the path with a backslash and a NUL
/// at the end. None for a path that is empty or has a NUL inside.
pub open spec fn space_query(path: Seq<u16>) -> Option<Seq<u16>> {
    if path.len() == 0 || path.contains(0) {
        None
    } else if path.last() == SLASH || path.last() == BACKSLASH {
        Some(path.push(0))
    } else {
        Some(path.push(BACKSLASH).push(0))
    }
}

/// The path, in wide characters, to ask the free space of.
pub fn space_query_path(path: &[u16]) -> (query: Option<Vec<u16>>)
    ensures
        match query {
            Some(query) => space_query(path@) == Some(query@),
            None => space_query(path@) is None,
        },
{
    if path.len() == 0 {
        return None;
    }
    let mut i: usize = 0;
    while i < path.len()
        invariant
            i <= path@.len(),
            forall|k: int| 0 <= k < i ==> path@[k] != 0,
        decreases path@.len() - i,
    {
        if path[i] == 0 {
            assert(path@.contains(0));
            return None;
        }
        i += 1;
    }
    let mut query: Vec<u16> = Vec::new();
    push_units(&mut query, path);
    assert(query@ =~= path@);
    let last: u16 = path[path.len() - 1];
    if last != SLASH && last != BACKSLASH {
        query.push(BACKSLASH);
    }
    query.push(0);
    Some(query)
}

/// The drive with this number.
pub open spec fn drive_letter(index: nat) -> char {
    (65 + index) as char
}

/// Whether a mask of drives has this drive.
pub open spec fn has_drive(mask: u32, index: nat) -> bool {
    mask & (1u32 << (index as u32)) != 0
}

/// The drives of `mask` with numbers below `n`, in order.
pub open spec fn drives(mask: u32, n: nat) -> Seq<char>
    decreases n,
{
    if n == 0 {
        Seq::empty()
    } else {
        let rest = drives(mask, (n - 1) as nat);
        if has_drive(mask, (n - 1) as nat) {
            rest.push(drive_letter((n - 1) as nat))
        } else {
            rest
        }
    }
}

/// The letters of the drives in a mask with one bit for each.
pub fn drive_letters(mask: u32) -> (letters: Vec<char>)
    ensures
        letters@ == drives(mask, 26),
{
    let mut letters: Vec<char> = Vec::new();
    let mut index: u32 = 0;
    while index < 26
        invariant
            index <= 26,
            letters@ == drives(mask, index as nat),
        decreases 26 - index,
    {
        if mask & (1u32 << index) != 0 {
            letters.push((65u8 + index as u8) as char);
        }
        index += 1;
    }
    letters
}

/// Whether a drive of this type is listed: fixed and removable disks are,
/// optical drives and network drives are not.
pub fn is_local_drive(kind: u32) -> (yes: bool)
    ensures
        yes == (kind == DRIVE_FIXED || kind == DRIVE_REMOVABLE),
{
    kind == DRIVE_FIXED || kind == DRIVE_REMOVABLE
}

/// The root directory of a drive.
pub fn drive_root(letter: char) -> (root: String)
    ensures
        root@ == seq![letter, ':', '\\'],
{
    let mut root = String::new();
    root.push(letter);
    root.push(':');
    root.push('\\');
    assert(root@ =~= seq![letter, ':', '\\']);
    root
}

/// What a drive is called: its label and its letter, or its letter alone where
/// it has no label.
pub open spec fn volume_name(letter: char, label: Option<Seq<u16>>) -> Seq<char> {
    match label {
        Some(label) if until_nul(label).len() > 0 => bytes::utf16_text(until_nul(label)) + " ("@
            + seq![letter, ':', ')'],
        _ => seq![letter, ':'],
    }
}

/// What to call a drive, from the buffer with its label.
pub fn name_volume(letter: char, label: Option<&[u16]>) -> (name: String)
    ensures
        name@ == volume_name(letter, match label {
            Some(label) => Some(label@),
            None => None,
        }),
{
    if let Some(label) = label {
        let end: usize = find_nul(label);
        if end > 0 {
            let mut name = trim_wide_nul(label);
            name.append(" (");
            name.push(letter);
            name.push(':');
            name.push(')');
            assert(name@ =~= volume_name(letter, Some(label@)));
            return name;
        }
    }
    let mut name = String::new();
    name.push(letter);
    name.push(':');
    assert(name@ =~= seq![letter, ':']);
    name
}

/// What stands before the first NUL has none, and is the beginning of the buffer; it is all
/// of it only where there is no NUL.
pub proof fn lemma_until_nul(units: Seq<u16>)
    ensures
        ({
            let head = until_nul(units);
            &&& !head.contains(0)
            &&& head.len() <= units.len()
            &&& head == units.take(head.len() as int)
            &&& head.len() < units.len() ==> units[head.len() as int] == 0
        }),
{
    lemma_nul_position(units, 0);
    lemma_before_nul(units, 0);
    let head = until_nul(units);
    if head.contains(0) {
        let i = head.index_of(0);
        assert(units[i] == 0);
    }
}

proof fn lemma_before_nul(units: Seq<u16>, from: nat)
    requires
        from <= units.len(),
    ensures
        forall|i: int| from <= i < nul_position(units, from) ==> #[trigger] units[i] != 0,
        nul_position(units, from) < units.len() ==> units[nul_position(units, from) as int] == 0,
    decreases units.len() - from,
{
    if from < units.len() && units[from as int] != 0 {
        lemma_before_nul(units, from + 1);
    }
}

/// A verbatim form ends with the path, or with what follows the two backslashes of a share,
/// and a drive or a share has one.
pub proof fn lemma_verbatim(path: Seq<u16>)
    ensures
        path.len() >= 2 && path[1] == 58 && !is_unc(path) ==> is_verbatim(verbatim(path))
            && verbatim(path).skip(4) == path,
        is_unc(path) && !is_verbatim(path) ==> is_verbatim(verbatim(path)) && verbatim(path).skip(
            8,
        ) == path.skip(2),
        is_verbatim(path) ==> verbatim(path) == path,
{
    if path.len() >= 2 && path[1] == 58 && !is_unc(path) {
        assert(verbatim(path).skip(4) =~= path);
    }
    if is_unc(path) && !is_verbatim(path) {
        assert(verbatim(path).skip(8) =~= path.skip(2));
    }
}

/// Taking the verbatim prefix off gives back the path that it was put before: a drive's as
/// it was, a share's with its two backslashes. Any other path stays.
pub proof fn lemma_simplified(path: Seq<char>)
    ensures
        simplified("\\\\?\\UNC\\"@ + path) == "\\\\"@ + path,
        !text::has_prefix(path, "UNC\\"@) ==> simplified("\\\\?\\"@ + path) == path,
        !text::has_prefix(path, "\\\\?\\"@) ==> simplified(path) == path,
{
    reveal_strlit("\\\\?\\UNC\\");
    reveal_strlit("\\\\?\\");
    reveal_strlit("UNC\\");
    let share = "\\\\?\\UNC\\"@;
    let plain = "\\\\?\\"@;
    let a = share + path;
    assert(a.take(8) =~= share);
    assert(a.skip(8) =~= path);
    let b = plain + path;
    assert(b.take(4) =~= plain);
    assert(b.skip(4) =~= path);
    if text::has_prefix(b, share) {
        assert(b.take(8).skip(4) =~= path.take(4));
        assert(share.skip(4) =~= "UNC\\"@);
    }
    if text::has_prefix(path, share) {
        assert(path.take(4) =~= path.take(8).take(4));
        assert(share.take(4) =~= plain);
    }
}

/// A drive is listed exactly where its bit is set, under its letter.
pub proof fn lemma_drives(mask: u32, n: nat, index: nat)
    requires
        n <= 26,
        index < 26,
    ensures
        drives(mask, n).contains((65 + index) as char) <==> index < n && mask & (1u32 << (
        index as u32)) != 0,
    decreases n,
{
    let letter = (65 + index) as char;
    if n > 0 {
        let less = (n - 1) as nat;
        lemma_drives(mask, less, index);
        let rest = drives(mask, less);
        let all = drives(mask, n);
        if rest.contains(letter) {
            assert(all[rest.index_of(letter)] == letter);
        }
        if has_drive(mask, less) {
            assert(all[rest.len() as int] == drive_letter(less));
        }
        if all.contains(letter) && !rest.contains(letter) {
            let i = all.index_of(letter);
            if i < rest.len() {
                assert(rest[i] == letter);
            }
            assert(drive_letter(less) == letter);
        }
    }
}

/// What is asked for the space on a path is the path, closed by a separator and a NUL;
/// nothing is asked for a path that is empty or has a NUL inside.
pub proof fn lemma_space_query(path: Seq<u16>)
    ensures
        space_query(path) is None <==> path.len() == 0 || path.contains(0),
        space_query(path) is Some ==> {
            let query = space_query(path)->0;
            &&& query.last() == 0
            &&& query[query.len() - 2] == 47 || query[query.len() - 2] == 92
            &&& query.take(path.len() as int) == path
            &&& query.len() <= path.len() + 2
        },
{
    if let Some(query) = space_query(path) {
        assert(query.take(path.len() as int) =~= path);
    }
}

/// The device of a volume is that of its drive, whatever the case of the letter.
pub proof fn lemma_device(root: Seq<char>)
    ensures
        volume_device(root) is Some <==> root.len() >= 2 && root[1] == ':',
        volume_device(root) is Some ==> {
            let device = volume_device(root)->0;
            &&& text::alike(device[device.len() - 2], root[0])
            &&& device.last() == ':'
            &&& !('a' <= device[device.len() - 2] <= 'z')
        },
{
}

/// Fixed and removable disks are listed, and no other drives; their root is the letter
/// with a colon and a backslash.
pub proof fn lemma_listed_drives(kind: u32, yes: bool, letter: char, root: String)
    requires
        call_ensures(is_local_drive, (kind,), yes),
        call_ensures(drive_root, (letter,), root),
    ensures
        yes <==> kind == 2 || kind == 3,
        root@.len() == 3 && root@[0] == letter && root@[1] == ':' && root@[2] == '\\',
{
}

/// What stands before a NUL is read back, whatever follows it.
pub proof fn lemma_before_the_nul(head: Seq<u16>, rest: Seq<u16>)
    requires
        !head.contains(0),
    ensures
        until_nul(head.push(0) + rest) == head,
        nul_position(head.push(0) + rest, 0) == head.len(),
{
    let units = head.push(0) + rest;
    lemma_nul_position(units, 0);
    lemma_until_nul(units);
    let found = until_nul(units);
    assert(units[head.len() as int] == 0);
    if found.len() < head.len() {
        assert(head.contains(head[found.len() as int]));
    }
    if found.len() > head.len() {
        assert(found[head.len() as int] == 0);
        assert(found.contains(found[head.len() as int]));
    }
    assert(found =~= head);
}

/// A drive with a label is called by it, with the letter behind it; one without, or with
/// an empty one, by its letter.
pub proof fn lemma_volume_name(letter: char, label: Seq<u16>, rest: Seq<u16>)
    requires
        !label.contains(0),
        label.len() > 0,
    ensures
        volume_name(letter, Some(label.push(0) + rest)) == bytes::utf16_text(label) + seq![
            ' ',
            '(',
            letter,
            ':',
            ')',
        ],
        volume_name(letter, Some(seq![0u16] + rest)) == seq![letter, ':'],
        volume_name(letter, None) == seq![letter, ':'],
{
    reveal_strlit(" (");
    lemma_before_the_nul(label, rest);
    let none = Seq::<u16>::empty();
    assert(none.push(0) + rest =~= seq![0u16] + rest);
    lemma_before_the_nul(none, rest);
    assert(volume_name(letter, Some(label.push(0) + rest)) =~= bytes::utf16_text(label) + seq![
        ' ',
        '(',
        letter,
        ':',
        ')',
    ]);
}

} // verus!
