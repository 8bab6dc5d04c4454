//! Directory entries as `getattrlistbulk` returns them.
//!
//! Each entry is a record in the buffer, with these fields at these offsets
//! from its start:
//!
//! | offset | field |
//! |---|---|
//! | 0 | length of the record |
//! | 16 | file attributes that were returned |
//! | 24 | where the name is, from here |
//! | 28 | bytes of the name, with its NUL |
//! | 32 | object type |
//! | 36 | flags |
//! | 40 | allocated size, where it was returned |

use vstd::prelude::*;

use crate::bytes;
use crate::bytes::{decode_utf8, read_u32, read_u64};
use crate::text;
use crate::text::starts_with_dot;

verus! {

/// The flag of hidden entries.
pub const UF_HIDDEN: u32 = 0x8000;

/// The attribute bit of the allocated size.
pub const ATTR_FILE_ALLOCSIZE: u32 = 4;

/// The object type of regular files.
pub const VREG: u32 = 1;

/// The object type of directories.
pub const VDIR: u32 = 2;

/// Where the allocated size of a record begins.
pub const FIXED_LENGTH: usize = 40;

/// One entry of a directory: a file with its size, or a directory.
pub struct BulkEntry {
    pub name: String,
    pub is_dir: bool,
    pub size: u64,
    pub hidden: bool,
}

/// An entry as a mathematical value.
pub struct Listed {
    pub name: Seq<char>,
    pub is_dir: bool,
    pub size: nat,
    pub hidden: bool,
}

impl View for BulkEntry {
    type V = Listed;

    open spec fn view(&self) -> Listed {
        Listed {
            name: self.name@,
            is_dir: self.is_dir,
            size: self.size as nat,
            hidden: self.hidden,
        }
    }
}

/// Entries as mathematical values.
pub open spec fn entry_views(entries: Seq<BulkEntry>) -> Seq<Listed> {
    entries.map_values(|entry: BulkEntry| entry@)
}

/// A 32-bit number read as signed.
pub open spec fn signed(n: nat) -> int {
    if n < 0x8000_0000 {
        n as int
    } else {
        n - 0x1_0000_0000
    }
}

/// Where the name of the record at `at` begins.
pub open spec fn name_start(buf: Seq<u8>, at: int) -> int {
    at + 24 + signed(bytes::le32(buf, at + 24))
}

/// How many bytes the name has, with its NUL.
pub open spec fn name_bytes(buf: Seq<u8>, at: int) -> nat {
    bytes::le32(buf, at + 28)
}

/// Whether the record at `at`, `length` bytes long, has a name that lies in
/// the buffer and does not reach past the record.
pub open spec fn has_name(buf: Seq<u8>, at: int, length: nat) -> bool {
    let start = name_start(buf, at);
    name_bytes(buf, at) > 0 && 0 <= start && start + name_bytes(buf, at) <= at + length
}

/// The name of the record at `at`, without its NUL.
pub open spec fn record_name(buf: Seq<u8>, at: int) -> Seq<char> {
    let start = name_start(buf, at);
    bytes::utf8_text(buf.subrange(start, start + name_bytes(buf, at) - 1))
}

/// The allocated size of the record at `at`; 0 where it was not returned.
pub open spec fn record_size(buf: Seq<u8>, at: int) -> nat {
    if bytes::le32(buf, at + 16) as u32 & ATTR_FILE_ALLOCSIZE != 0 && at + 48 <= buf.len() {
        bytes::le64(buf, at + 40)
    } else {
        0
    }
}

/// The entry of the record at `at`: a file or a directory with a name. Other
/// objects have none.
pub open spec fn record_entry(buf: Seq<u8>, at: int, length: nat) -> Option<Listed> {
    let kind = bytes::le32(buf, at + 32);
    let name = record_name(buf, at);
    if has_name(buf, at, length) && (kind == VDIR || kind == VREG) {
        Some(
            Listed {
                name,
                is_dir: kind == VDIR,
                size: if kind == VREG {
                    record_size(buf, at)
                } else {
                    0
                },
                hidden: text::dotted(name) || bytes::le32(buf, at + 36) as u32 & UF_HIDDEN != 0,
            },
        )
    } else {
        None
    }
}

/// The entries of at most `count` records from `at` on. A record that does not
/// fit the buffer ends the list.
pub open spec fn entries_from(buf: Seq<u8>, at: int, count: nat) -> Seq<Listed>
    decreases count,
{
    if count == 0 || at + FIXED_LENGTH > buf.len() {
        Seq::empty()
    } else {
        let length = bytes::le32(buf, at);
        if length == 0 || at + length > buf.len() {
            Seq::empty()
        } else {
            let rest = entries_from(buf, at + length, (count - 1) as nat);
            match record_entry(buf, at, length) {
                Some(entry) => seq![entry] + rest,
                None => rest,
            }
        }
    }
}

/// The entry of the record at `at`, `length` bytes long.
fn read_entry(buf: &[u8], at: usize, length: usize) -> (entry: Option<BulkEntry>)
    requires
        at + FIXED_LENGTH <= buf.len(),
        at + length <= buf.len(),
        length == bytes::le32(buf@, at as int),
    ensures
        match entry {
            Some(entry) => record_entry(buf@, at as int, length as nat) == Some(entry@),
            None => record_entry(buf@, at as int, length as nat) is None,
        },
{
    let kind: u32 = read_u32(buf, at + 32);
    if kind != VREG && kind != VDIR {
        return None;
    }
    let offset: u32 = read_u32(buf, at + 24);
    let count: usize = read_u32(buf, at + 28) as usize;
    if count == 0 {
        return None;
    }
    let from: i128 = at as i128 + 24 + if offset < 0x8000_0000 {
        offset as i128
    } else {
        offset as i128 - 0x1_0000_0000
    };
    if from < 0 || from + count as i128 > at as i128 + length as i128 {
        return None;
    }
    let start: usize = from as usize;
    let slice = vstd::slice::slice_subrange(buf, start, start + count - 1);
    let name = decode_utf8(slice);
    let flags: u32 = read_u32(buf, at + 36);
    let returned: u32 = read_u32(buf, at + 16);
    let size: u64 = if kind == VREG && returned & ATTR_FILE_ALLOCSIZE != 0 && buf.len() - at >= 48 {
        read_u64(buf, at + 40)
    } else {
        0
    };
    let hidden: bool = starts_with_dot(name.as_str()) || flags & UF_HIDDEN != 0;
    Some(BulkEntry { name, is_dir: kind == VDIR, size, hidden })
}

/// The entries of the `count` records in `buf`. Symbolic links, sockets and
/// the like are left out.
pub fn parse_bulk(buf: &[u8], count: usize) -> (entries: Vec<BulkEntry>)
    ensures
        entry_views(entries@) == entries_from(buf@, 0, count as nat),
{
    let mut entries: Vec<BulkEntry> = Vec::new();
    let mut at: usize = 0;
    let mut left: usize = count;
    let ghost all = entries_from(buf@, 0, count as nat);
    assert(entry_views(entries@) + all =~= all);
    while left > 0
        invariant
            at <= buf.len(),
            left <= count,
            all == entry_views(entries@) + entries_from(buf@, at as int, left as nat),
        ensures
            all == entry_views(entries@),
        decreases left,
    {
        let ghost found = entry_views(entries@);
        if buf.len() - at < FIXED_LENGTH {
            assert(found + Seq::<Listed>::empty() =~= found);
            break;
        }
        let length: usize = read_u32(buf, at) as usize;
        if length == 0 || length > buf.len() - at {
            assert(found + Seq::<Listed>::empty() =~= found);
            break;
        }
        let ghost rest = entries_from(buf@, at + length, (left - 1) as nat);
        match read_entry(buf, at, length) {
            Some(entry) => {
                entries.push(entry);
                proof {
                    assert(entry_views(entries@) =~= found.push(entry@));
                    assert(found + (seq![entry@] + rest) =~= found.push(entry@) + rest);
                }
            },
            None => {},
        }
        at += length;
        left -= 1;
        proof {
            if left == 0 {
                assert(entry_views(entries@) + Seq::<Listed>::empty() =~= entry_views(entries@));
            }
        }
    }
    entries
}

/// A record is a file or a directory, as its kind says; nothing else has an entry. A
/// directory has no size of its own, and what begins with a dot is hidden.
pub proof fn lemma_record(buf: Seq<u8>, at: int, length: nat)
    requires
        has_name(buf, at, length),
    ensures
        ({
            let kind = bytes::le32(buf, at + 32);
            let entry = record_entry(buf, at, length);
            &&& entry is Some <==> kind == 1 || kind == 2
            &&& kind == 2 ==> entry->0.is_dir && entry->0.size == 0
            &&& kind == 1 ==> !entry->0.is_dir
            &&& kind == 1 && bytes::le32(buf, at + 16) as u32 & 4u32 != 0 && at + 48 <= buf.len()
                ==> entry->0.size == bytes::le64(buf, at + 40)
            &&& entry is Some && entry->0.name.len() > 0 && entry->0.name[0] == '.'
                ==> entry->0.hidden
            &&& entry is Some && bytes::le32(buf, at + 36) as u32 & 0x8000u32 != 0
                ==> entry->0.hidden
        }),
{
}

/// A buffer is read record by record, each where the one before it ends, and no more
/// entries are read than there are said to be.
pub proof fn lemma_entries(buf: Seq<u8>, at: int, count: nat)
    ensures
        entries_from(buf, at, count).len() <= count,
        count > 0 && at + FIXED_LENGTH <= buf.len() && bytes::le32(buf, at) > 0 && at
            + bytes::le32(buf, at) <= buf.len() ==> entries_from(buf, at, count) == (
        match record_entry(buf, at, bytes::le32(buf, at)) {
            Some(entry) => seq![entry],
            None => Seq::empty(),
        }) + entries_from(buf, at + bytes::le32(buf, at), (count - 1) as nat),
    decreases count,
{
    if count > 0 {
        let length = bytes::le32(buf, at);
        let rest = entries_from(buf, at + length, (count - 1) as nat);
        lemma_entries(buf, at + length, (count - 1) as nat);
        assert(Seq::<Listed>::empty() + rest =~= rest);
    }
}

} // verus!
