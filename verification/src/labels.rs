//! Labels with sizes in them.

use vstd::prelude::*;

use crate::text;
use crate::text::{owned, push_decimal};

verus! {

/// What `bytesize` writes for a number of bytes.
pub uninterp spec fn byte_size_text(bytes: u64) -> Seq<char>;

/// `bytesize::ByteSize::b` with its `Display`: the size in the unit that suits
/// it, with one decimal, such as `1.5 GiB`. Below 1024 bytes it is the number
/// itself and `B`.
#[verifier::external_body]
fn byte_size(bytes: u64) -> (text: String)
    ensures
        text@ == byte_size_text(bytes),
        bytes < 1024 ==> text@ == text::decimal(bytes as nat) + seq![' ', 'B'],
{
    bytesize::ByteSize::b(bytes).to_string()
}

/// A size as it is shown.
pub fn size_text(bytes: u64) -> (text: String)
    ensures
        text@ == byte_size_text(bytes),
        bytes < 1024 ==> text@ == text::decimal(bytes as nat) + seq![' ', 'B'],
{
    byte_size(bytes)
}

/// What is used of `total` bytes where `available` are not.
pub open spec fn used(total: u64, available: u64) -> u64 {
    if total >= available {
        (total - available) as u64
    } else {
        0
    }
}

pub fn used_bytes(total: u64, available: u64) -> (bytes: u64)
    ensures
        bytes == used(total, available),
{
    total.saturating_sub(available)
}

/// Files and their size, between `head` and `tail`.
pub open spec fn files_and_size(
    head: Seq<char>,
    files: nat,
    between: Seq<char>,
    size: Seq<char>,
    tail: Seq<char>,
) -> Seq<char> {
    head + text::decimal(files) + between + size + tail
}

fn write_files_and_size(head: &str, files: u64, between: &str, size: &str, tail: &str) -> (text:
    String)
    ensures
        text@ == files_and_size(head@, files as nat, between@, size@, tail@),
{
    let mut text = owned(head);
    push_decimal(&mut text, files);
    text.append(between);
    text.append(size);
    text.append(tail);
    text
}

/// The line on a finished scan.
pub open spec fn summary_line(files: nat, size: Seq<char>) -> Seq<char> {
    files_and_size(""@, files, " files, "@, size, ""@)
}

pub fn summary_text(files: u64, size: &str) -> (text: String)
    ensures
        text@ == summary_line(files as nat, size@),
{
    write_files_and_size("", files, " files, ", size, "")
}

/// The line on a finished scan.
pub fn scan_summary(files: u64, bytes: u64) -> (text: String)
    ensures
        text@ == summary_line(files as nat, byte_size_text(bytes)),
{
    summary_text(files, size_text(bytes).as_str())
}

/// The line on a scan whose tree is gone.
pub open spec fn scanned_line(path: Seq<char>, files: nat, size: Seq<char>) -> Seq<char> {
    files_and_size("Scanned: "@ + path + " ("@, files, " files, "@, size, ")"@)
}

pub fn scanned_text(path: &str, files: u64, size: &str) -> (text: String)
    ensures
        text@ == scanned_line(path@, files as nat, size@),
{
    let mut head = owned("Scanned: ");
    head.append(path);
    head.append(" (");
    write_files_and_size(head.as_str(), files, " files, ", size, ")")
}

/// The line on a scan whose tree is gone.
pub fn scanned(path: &str, files: u64, bytes: u64) -> (text: String)
    ensures
        text@ == scanned_line(path@, files as nat, byte_size_text(bytes)),
{
    scanned_text(path, files, size_text(bytes).as_str())
}

/// The line on a running scan.
pub open spec fn progress_line(files: nat, size: Seq<char>) -> Seq<char> {
    files_and_size(""@, files, " files \u{2014} "@, size, ""@)
}

pub fn progress_text(files: u64, size: &str) -> (text: String)
    ensures
        text@ == progress_line(files as nat, size@),
{
    write_files_and_size("", files, " files \u{2014} ", size, "")
}

/// The line on a running scan.
pub fn scan_progress(files: u64, bytes: u64) -> (text: String)
    ensures
        text@ == progress_line(files as nat, byte_size_text(bytes)),
{
    progress_text(files, size_text(bytes).as_str())
}

/// The line that a scan without a window prints.
pub open spec fn printed_line(
    files: nat,
    bytes: nat,
    size: Seq<char>,
    fallbacks: Option<Seq<char>>,
) -> Seq<char> {
    let line = text::decimal(files) + " files, "@ + text::decimal(bytes) + " bytes ("@ + size
        + ")"@;
    match fallbacks {
        Some(fallbacks) => line + " ["@ + fallbacks + "]"@,
        None => line,
    }
}

pub fn printed_text(files: u64, bytes: u64, size: &str, fallbacks: Option<&str>) -> (text: String)
    ensures
        text@ == printed_line(files as nat, bytes as nat, size@, match fallbacks {
            Some(fallbacks) => Some(fallbacks@),
            None => None,
        }),
{
    let mut text = String::new();
    push_decimal(&mut text, files);
    text.append(" files, ");
    push_decimal(&mut text, bytes);
    text.append(" bytes (");
    text.append(size);
    text.append(")");
    assert(text@ =~= text::decimal(files as nat) + " files, "@ + text::decimal(bytes as nat)
        + " bytes ("@ + size@ + ")"@);
    if let Some(fallbacks) = fallbacks {
        text.append(" [");
        text.append(fallbacks);
        text.append("]");
    }
    text
}

/// The line that a scan without a window prints.
pub fn printed(files: u64, bytes: u64, fallbacks: Option<&str>) -> (text: String)
    ensures
        text@ == printed_line(
            files as nat,
            bytes as nat,
            byte_size_text(bytes),
            match fallbacks {
                Some(fallbacks) => Some(fallbacks@),
                None => None,
            },
        ),
{
    printed_text(files, bytes, size_text(bytes).as_str(), fallbacks)
}

/// The line on the space of a disk.
pub open spec fn disk_line(used: Seq<char>, total: Seq<char>, free: Seq<char>) -> Seq<char> {
    "Disk: "@ + used + " used / "@ + total + " ("@ + free + " free)"@
}

pub fn disk_text(used: &str, total: &str, free: &str) -> (text: String)
    ensures
        text@ == disk_line(used@, total@, free@),
{
    let mut text = owned("Disk: ");
    text.append(used);
    text.append(" used / ");
    text.append(total);
    text.append(" (");
    text.append(free);
    text.append(" free)");
    text
}

/// The line on the space of a disk.
pub fn disk_usage(total: u64, available: u64) -> (text: String)
    ensures
        text@ == disk_line(
            byte_size_text(used(total, available)),
            byte_size_text(total),
            byte_size_text(available),
        ),
{
    let used = size_text(used_bytes(total, available));
    let whole = size_text(total);
    let free = size_text(available);
    disk_text(used.as_str(), whole.as_str(), free.as_str())
}

/// The line on the space of a volume.
pub open spec fn volume_line(used: Seq<char>, total: Seq<char>) -> Seq<char> {
    used + " used of "@ + total
}

pub fn volume_text(used: &str, total: &str) -> (text: String)
    ensures
        text@ == volume_line(used@, total@),
{
    let mut text = owned(used);
    text.append(" used of ");
    text.append(total);
    text
}

/// The line on the space of a volume.
pub fn volume_usage(total: u64, available: u64) -> (text: String)
    ensures
        text@ == volume_line(byte_size_text(used(total, available)), byte_size_text(total)),
{
    let used = size_text(used_bytes(total, available));
    let whole = size_text(total);
    volume_text(used.as_str(), whole.as_str())
}

/// What is shown where the pointer rests on a row: its path, its size and, of
/// a directory, the number of its entries.
pub open spec fn row_hint(path: Seq<char>, size: Seq<char>, entries: Option<nat>) -> Seq<char> {
    match entries {
        Some(entries) => path + "\n"@ + size + " \u{2014} "@ + text::decimal(entries) + " items"@,
        None => path + "\n"@ + size,
    }
}

pub fn row_hint_text(path: &str, size: &str, entries: Option<usize>) -> (text: String)
    ensures
        text@ == row_hint(path@, size@, match entries {
            Some(entries) => Some(entries as nat),
            None => None,
        }),
{
    let mut text = owned(path);
    text.append("\n");
    text.append(size);
    if let Some(entries) = entries {
        text.append(" \u{2014} ");
        push_decimal(&mut text, entries as u64);
        text.append(" items");
    }
    text
}

/// What is shown where the pointer rests on a row.
pub fn hint(path: &str, bytes: u64, entries: Option<usize>) -> (text: String)
    ensures
        text@ == row_hint(path@, byte_size_text(bytes), match entries {
            Some(entries) => Some(entries as nat),
            None => None,
        }),
{
    row_hint_text(path, size_text(bytes).as_str(), entries)
}

/// `n` spaces.
pub open spec fn spaces(n: nat) -> Seq<char> {
    Seq::new(n, |i: int| ' ')
}

/// A text with spaces before it, so that it has at least ten characters.
pub open spec fn right_aligned(text: Seq<char>) -> Seq<char> {
    if text.len() >= 10 {
        text
    } else {
        spaces((10 - text.len()) as nat) + text
    }
}

pub fn align_right(text: &str) -> (aligned: String)
    ensures
        aligned@ == right_aligned(text@),
{
    let length: usize = text::chars_of(text).len();
    let mut aligned = String::new();
    let mut n: usize = length;
    while n < 10
        invariant
            length <= n,
            n <= 10 || n == length,
            aligned@ == spaces((n - length) as nat),
        decreases 10 - n,
    {
        aligned.push(' ');
        n += 1;
        assert(aligned@ =~= spaces((n - length) as nat));
    }
    aligned.append(text);
    assert(aligned@ =~= right_aligned(text@));
    aligned
}

/// The size in a row, aligned to the right.
pub fn row_size(bytes: u64) -> (text: String)
    ensures
        text@ == right_aligned(byte_size_text(bytes)),
{
    align_right(size_text(bytes).as_str())
}

/// What can be reclaimed.
pub open spec fn reclaim_line(size: Seq<char>) -> Seq<char> {
    "You can reclaim "@ + size
}

pub fn reclaim_text(size: &str) -> (text: String)
    ensures
        text@ == reclaim_line(size@),
{
    let mut text = owned("You can reclaim ");
    text.append(size);
    text
}

/// What can be reclaimed.
pub fn reclaim(bytes: u64) -> (text: String)
    ensures
        text@ == reclaim_line(byte_size_text(bytes)),
{
    reclaim_text(size_text(bytes).as_str())
}

/// The button that cleans a group.
pub open spec fn clean_line(size: Seq<char>) -> Seq<char> {
    "Clean "@ + size
}

pub fn clean_text(size: &str) -> (text: String)
    ensures
        text@ == clean_line(size@),
{
    let mut text = owned("Clean ");
    text.append(size);
    text
}

/// The button that cleans a group.
pub fn clean(bytes: u64) -> (text: String)
    ensures
        text@ == clean_line(byte_size_text(bytes)),
{
    clean_text(size_text(bytes).as_str())
}

/// A group's size and the number of its items.
pub open spec fn group_line(size: Seq<char>, items: nat) -> Seq<char> {
    size + " \u{2014} "@ + text::decimal(items) + " items"@
}

pub fn group_text(size: &str, items: usize) -> (text: String)
    ensures
        text@ == group_line(size@, items as nat),
{
    let mut text = owned(size);
    text.append(" \u{2014} ");
    push_decimal(&mut text, items as u64);
    text.append(" items");
    text
}

/// A group's size and the number of its items.
pub fn group(bytes: u64, items: usize) -> (text: String)
    ensures
        text@ == group_line(byte_size_text(bytes), items as nat),
{
    group_text(size_text(bytes).as_str(), items)
}

/// What is used and what is available are together what there is, where no more is
/// available than there is.
pub proof fn lemma_used(total: u64, available: u64)
    ensures
        available <= total ==> used(total, available) + available == total,
        available > total ==> used(total, available) == 0,
{
}

/// The line on a disk says first what is used, then all there is, and last what is free;
/// that on a volume first what is used and last all there is.
pub proof fn lemma_space_lines(used: Seq<char>, total: Seq<char>, free: Seq<char>)
    ensures
        text::has_prefix(disk_line(used, total, free), "Disk: "@ + used + " used / "@ + total),
        text::has_suffix(disk_line(used, total, free), " ("@ + free + " free)"@),
        text::has_prefix(volume_line(used, total), used + " used"@),
        text::has_suffix(volume_line(used, total), total),
{
    let line = disk_line(used, total, free);
    let head = "Disk: "@ + used + " used / "@ + total;
    let tail = " ("@ + free + " free)"@;
    assert(line =~= head + tail);
    assert(line.take(head.len() as int) =~= head);
    assert(line.skip(line.len() - tail.len()) =~= tail);
    let volume = volume_line(used, total);
    reveal_strlit(" used of ");
    reveal_strlit(" used");
    let begin = used + " used"@;
    assert(volume.take(begin.len() as int) =~= begin);
    assert(volume.skip(volume.len() - total.len()) =~= total);
}

/// The lines on a scan say the number of its files before their size.
pub proof fn lemma_scan_lines(path: Seq<char>, files: nat, bytes: nat, size: Seq<char>)
    ensures
        text::has_prefix(summary_line(files, size), text::decimal(files) + " files, "@),
        text::has_suffix(summary_line(files, size), size),
        text::has_prefix(progress_line(files, size), text::decimal(files) + " files"@),
        text::has_suffix(progress_line(files, size), size),
        text::has_prefix(scanned_line(path, files, size), "Scanned: "@ + path),
        text::has_suffix(
            scanned_line(path, files, size),
            text::decimal(files) + " files, "@ + size + ")"@,
        ),
        text::has_prefix(
            printed_line(files, bytes, size, None),
            text::decimal(files) + " files, "@ + text::decimal(bytes) + " bytes ("@ + size,
        ),
{
    reveal_strlit("");
    reveal_strlit(" files, ");
    reveal_strlit(" files");
    reveal_strlit(" files \u{2014} ");
    let summary = summary_line(files, size);
    let head = text::decimal(files) + " files, "@;
    assert(summary =~= head + size);
    assert(summary.take(head.len() as int) =~= head);
    assert(summary.skip(summary.len() - size.len()) =~= size);
    let progress = progress_line(files, size);
    let begin = text::decimal(files) + " files"@;
    assert(progress =~= text::decimal(files) + " files \u{2014} "@ + size);
    assert(progress.take(begin.len() as int) =~= begin);
    assert(progress.skip(progress.len() - size.len()) =~= size);
    let scanned = scanned_line(path, files, size);
    let first = "Scanned: "@ + path;
    let rest = text::decimal(files) + " files, "@ + size + ")"@;
    assert(scanned =~= first + " ("@ + rest);
    assert(scanned.take(first.len() as int) =~= first);
    assert(scanned.skip(scanned.len() - rest.len()) =~= rest);
    let printed = printed_line(files, bytes, size, None);
    let front = text::decimal(files) + " files, "@ + text::decimal(bytes) + " bytes ("@ + size;
    assert(printed =~= front + ")"@);
    assert(printed.take(front.len() as int) =~= front);
}

/// A text that is aligned to the right stands at the end of ten characters or more, with
/// nothing but spaces before it.
pub proof fn lemma_aligned(text: Seq<char>)
    ensures
        text::has_suffix(right_aligned(text), text),
        right_aligned(text).len() >= 10,
        text.len() >= 10 ==> right_aligned(text) == text,
        text.len() < 10 ==> right_aligned(text).len() == 10,
        forall|i: int|
            0 <= i < right_aligned(text).len() - text.len() ==> #[trigger] right_aligned(text)[i]
                == ' ',
{
    let line = right_aligned(text);
    assert(line.skip(line.len() - text.len()) =~= text);
}

/// What the pointer shows of a row begins with its path and says its size; of a directory
/// it ends with the number of its entries.
pub proof fn lemma_hint(path: Seq<char>, size: Seq<char>, entries: nat)
    ensures
        row_hint(path, size, None) == path + "\n"@ + size,
        text::has_prefix(row_hint(path, size, Some(entries)), row_hint(path, size, None)),
        text::has_suffix(row_hint(path, size, Some(entries)), text::decimal(entries) + " items"@),
        text::has_prefix(group_line(size, entries), size),
        text::has_suffix(group_line(size, entries), text::decimal(entries) + " items"@),
        text::has_suffix(reclaim_line(size), size),
        text::has_suffix(clean_line(size), size),
{
    let hint = row_hint(path, size, Some(entries));
    let head = path + "\n"@ + size;
    let tail = text::decimal(entries) + " items"@;
    assert(hint.take(head.len() as int) =~= head);
    assert(hint.skip(hint.len() - tail.len()) =~= tail);
    let line = group_line(size, entries);
    assert(line.take(size.len() as int) =~= size);
    assert(line.skip(line.len() - tail.len()) =~= tail);
    let reclaim = reclaim_line(size);
    assert(reclaim.skip(reclaim.len() - size.len()) =~= size);
    let clean = clean_line(size);
    assert(clean.skip(clean.len() - size.len()) =~= size);
}

} // verus!
