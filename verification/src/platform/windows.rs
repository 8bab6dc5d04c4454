//! Volumes and skipped directories on Windows.

use vstd::prelude::*;

use crate::bytes;
use crate::text;
use crate::text::{chars_of, ends_with, owned};
use crate::wide;
use crate::wide::{drive_root, find_nul, trim_wide_nul};

verus! {

/// Whether a path is the root of a drive.
pub open spec fn is_drive_root(root: Seq<char>) -> bool {
    vstd::utf8::encode_utf8(root).len() <= 3 && (text::has_suffix(root, "\\"@) || text::has_suffix(
        root,
        ":"@,
    ))
}

/// Whether a path is a drive alone, without a separator.
pub open spec fn is_drive(root: Seq<char>) -> bool {
    root.len() == 2 && root[1] == ':' && ('a' <= text::lower(root[0]) && text::lower(root[0])
        <= 'z')
}

/// The entry of a root with this name. A drive and a separator need no further
/// separator.
pub open spec fn below(root: Seq<char>, name: Seq<char>) -> Seq<char> {
    if text::has_suffix(root, "\\"@) || is_drive(root) {
        root + name
    } else {
        root + "\\"@ + name
    }
}

/// The directories that a scan of `root` leaves out.
pub open spec fn skipped(root: Seq<char>) -> Seq<Seq<char>> {
    if is_drive_root(root) {
        seq![below(root, "$Recycle.Bin"@), below(root, "System Volume Information"@)]
    } else {
        Seq::empty()
    }
}

fn join_below(root: &str, name: &str) -> (path: String)
    ensures
        path@ == below(root@, name@),
{
    let chars = chars_of(root);
    let drive: bool = chars.len() == 2 && chars[1] == ':' && {
        let letter: char = text::to_lower(chars[0]);
        'a' <= letter && letter <= 'z'
    };
    let mut path = owned(root);
    if !drive && !ends_with(root, "\\") {
        path.append("\\");
    }
    path.append(name);
    path
}

/// Texts as mathematical values.
pub open spec fn text_views(texts: Seq<String>) -> Seq<Seq<char>> {
    texts.map_values(|text: String| text@)
}

/// The directories that a scan of `root` leaves out: those of the system at
/// the root of a drive.
pub fn build_skip_set(root: &str) -> (skip: Vec<String>)
    ensures
        text_views(skip@) == skipped(root@),
{
    let mut skip: Vec<String> = Vec::new();
    if root.as_bytes().len() <= 3 && (ends_with(root, "\\") || ends_with(root, ":")) {
        skip.push(join_below(root, "$Recycle.Bin"));
        skip.push(join_below(root, "System Volume Information"));
    }
    assert(text_views(skip@) =~= skipped(root@));
    skip
}

/// One drive, with its bytes and the available ones, where they are known, and
/// the buffer with its label, where it could be read.
pub struct DriveEntry {
    pub letter: char,
    pub space: Option<(u64, u64)>,
    pub label: Option<Vec<u16>>,
}

/// A drive that is listed.
pub struct DriveInfo {
    pub name: String,
    pub root: String,
    pub total_bytes: u64,
    pub available_bytes: u64,
}

/// A listed drive as a mathematical value.
pub struct Drive {
    pub name: Seq<char>,
    pub root: Seq<char>,
    pub total_bytes: u64,
    pub available_bytes: u64,
}

impl View for DriveInfo {
    type V = Drive;

    open spec fn view(&self) -> Drive {
        Drive {
            name: self.name@,
            root: self.root@,
            total_bytes: self.total_bytes,
            available_bytes: self.available_bytes,
        }
    }
}

/// Drives as mathematical values.
pub open spec fn drive_views(drives: Seq<DriveInfo>) -> Seq<Drive> {
    drives.map_values(|drive: DriveInfo| drive@)
}

/// The label in a buffer: what stands before the first NUL. A buffer without
/// one has no label.
pub open spec fn label_text(label: Option<Vec<u16>>) -> Seq<char> {
    match label {
        Some(label) if wide::nul_position(label@, 0) < label@.len() => bytes::utf16_text(
            wide::until_nul(label@),
        ),
        _ => Seq::empty(),
    }
}

/// What a drive is called.
pub open spec fn drive_name(letter: char, label: Option<Vec<u16>>) -> Seq<char> {
    let head = label_text(label);
    if head.len() == 0 {
        "Local Disk ("@ + seq![letter, ':', ')']
    } else {
        head + " ("@ + seq![letter, ':', ')']
    }
}

/// What is listed of a drive: nothing where it has no bytes or they are not
/// known.
pub open spec fn listed_drive(entry: DriveEntry) -> Option<Drive> {
    match entry.space {
        Some((total_bytes, available_bytes)) if total_bytes > 0 => Some(
            Drive {
                name: drive_name(entry.letter, entry.label),
                root: seq![entry.letter, ':', '\\'],
                total_bytes,
                available_bytes,
            },
        ),
        _ => None,
    }
}

/// What is listed of the first `n` drives.
pub open spec fn listed_drives(entries: Seq<DriveEntry>, n: nat) -> Seq<Drive>
    decreases n,
{
    if n == 0 {
        Seq::empty()
    } else {
        let before = listed_drives(entries, (n - 1) as nat);
        match listed_drive(entries[n - 1]) {
            Some(drive) => before.push(drive),
            None => before,
        }
    }
}

fn read_label(label: &Option<Vec<u16>>) -> (text: String)
    ensures
        text@ == label_text(*label),
{
    match label {
        Some(units) => {
            if find_nul(units.as_slice()) < units.len() {
                trim_wide_nul(units.as_slice())
            } else {
                String::new()
            }
        },
        None => String::new(),
    }
}

/// The drives that can be scanned.
pub fn list_volumes(entries: &Vec<DriveEntry>) -> (drives: Vec<DriveInfo>)
    ensures
        drive_views(drives@) == listed_drives(entries@, entries@.len()),
{
    let mut drives: Vec<DriveInfo> = Vec::new();
    let mut i: usize = 0;
    assert(drive_views(drives@) =~= Seq::<Drive>::empty());
    while i < entries.len()
        invariant
            i <= entries@.len(),
            drive_views(drives@) == listed_drives(entries@, i as nat),
        decreases entries@.len() - i,
    {
        let entry = &entries[i];
        let ghost before = drive_views(drives@);
        if let Some((total_bytes, available_bytes)) = entry.space {
            if total_bytes > 0 {
                let mut name = read_label(&entry.label);
                if name.as_str().is_empty() {
                    name = owned("Local Disk (");
                } else {
                    name.append(" (");
                }
                name.push(entry.letter);
                name.push(':');
                name.push(')');
                assert(name@ =~= drive_name(entry.letter, entry.label));
                let root = drive_root(entry.letter);
                drives.push(DriveInfo { name, root, total_bytes, available_bytes });
                assert(drive_views(drives@) =~= before.push(drives@.last()@));
            }
        }
        i += 1;
    }
    drives
}

/// A scan of a whole drive leaves out its bin and the folder of the system; it does so
/// whether the drive is written with its separator or without.
pub proof fn lemma_drive_skips(letter: char)
    requires
        'a' <= text::lower(letter) <= 'z',
    ensures
        skipped(seq![letter, ':', '\\']) == seq![
            seq![letter, ':', '\\'] + "$Recycle.Bin"@,
            seq![letter, ':', '\\'] + "System Volume Information"@,
        ],
        skipped(seq![letter, ':']).len() == 2,
{
    let root = seq![letter, ':', '\\'];
    let drive = seq![letter, ':'];
    reveal_strlit("\\");
    reveal_strlit(":");
    assert((letter as nat) < 128);
    assert(vstd::utf8::is_ascii_chars(root));
    assert(vstd::utf8::is_ascii_chars(drive));
    vstd::utf8::is_ascii_chars_encode_utf8(root);
    vstd::utf8::is_ascii_chars_encode_utf8(drive);
    assert(root.skip(2) =~= "\\"@);
    assert(drive.skip(1) =~= ":"@);
}

/// Any other scan leaves out nothing.
pub proof fn lemma_folder_skips_nothing(root: Seq<char>)
    requires
        vstd::utf8::encode_utf8(root).len() > 3 || root.len() == 0 || (root.last() != '\\'
            && root.last() != ':'),
    ensures
        skipped(root).len() == 0,
{
    reveal_strlit("\\");
    reveal_strlit(":");
    if root.len() > 0 {
        assert(root.skip(root.len() - 1)[0] == root.last());
    }
}

/// A drive is listed exactly where its size is known and it has bytes: under its letter,
/// with its bytes.
pub proof fn lemma_drive_listed(entry: DriveEntry)
    ensures
        listed_drive(entry) is Some <==> entry.space is Some && {
            let (total, _) = entry.space->0;
            total > 0
        },
        listed_drive(entry) is Some ==> {
            let drive = listed_drive(entry)->0;
            &&& drive.root == seq![entry.letter, ':', '\\']
            &&& (drive.total_bytes, drive.available_bytes) == entry.space->0
            &&& text::has_suffix(drive.name, seq!['(', entry.letter, ':', ')'])
        },
{
    if let Some(drive) = listed_drive(entry) {
        reveal_strlit("Local Disk (");
        reveal_strlit(" (");
        let tail = seq!['(', entry.letter, ':', ')'];
        assert(drive.name.skip(drive.name.len() - 4) =~= tail);
    }
}

/// All drives that are to be listed are, in their order.
pub proof fn lemma_drives_listed(entries: Seq<DriveEntry>, more: DriveEntry)
    ensures
        listed_drives(entries.push(more), entries.len() + 1) == match listed_drive(more) {
            Some(drive) => listed_drives(entries, entries.len()).push(drive),
            None => listed_drives(entries, entries.len()),
        },
        listed_drives(Seq::empty(), 0).len() == 0,
{
    lemma_first_drives(entries, more, entries.len());
}

proof fn lemma_first_drives(entries: Seq<DriveEntry>, more: DriveEntry, n: nat)
    requires
        n <= entries.len(),
    ensures
        listed_drives(entries.push(more), n) == listed_drives(entries, n),
    decreases n,
{
    if n > 0 {
        lemma_first_drives(entries, more, (n - 1) as nat);
    }
}

/// A drive with a label is called by it, and one without is called a local disk.
pub proof fn lemma_drive_label(entry: DriveEntry, label: Seq<u16>, rest: Seq<u16>)
    requires
        !label.contains(0),
        listed_drive(entry) is Some,
        bytes::utf16_text(label).len() > 0,
    ensures
        entry.label is Some && entry.label->0@ == label.push(0) + rest ==> text::has_prefix(
            listed_drive(entry)->0.name,
            bytes::utf16_text(label),
        ),
        entry.label is None ==> text::has_prefix(listed_drive(entry)->0.name, "Local Disk"@),
{
    reveal_strlit("Local Disk (");
    reveal_strlit("Local Disk");
    wide::lemma_before_the_nul(label, rest);
    let name = listed_drive(entry)->0.name;
    if entry.label is Some && entry.label->0@ == label.push(0) + rest {
        let head = bytes::utf16_text(label);
        assert(name.take(head.len() as int) =~= head);
    }
    if entry.label is None {
        assert(name.take(10) =~= "Local Disk"@);
    }
}

} // verus!
