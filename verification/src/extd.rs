//! Directory entries as `GetFileInformationByHandleEx` returns them, in the
//! form of `FILE_ID_EXTD_DIR_INFO`.
//!
//! Each entry is a record in the buffer, with these fields at these offsets
//! from its start:
//!
//! | offset | field |
//! |---|---|
//! | 0 | distance to the next entry, 0 in the last |
//! | 40 | end of file |
//! | 56 | file attributes |
//! | 60 | bytes of the name |
//! | 68 | reparse tag |
//! | 88 | the name, in UTF-16 |

use vstd::prelude::*;

use crate::bulk;
use crate::bulk::BulkEntry;
use crate::bytes;
use crate::bytes::{decode_utf16, read_u32, read_u64, read_units};
use crate::ntfs::{ERROR_HANDLE_EOF, ERROR_NO_MORE_FILES};
use crate::scanner::FallbackKind;
use crate::text;
use crate::text::{owned, push_hex_padded, starts_with_dot};

verus! {

/// The attribute of hidden entries.
pub const FILE_ATTRIBUTE_HIDDEN: u32 = 0x2;

/// The attribute of directories.
pub const FILE_ATTRIBUTE_DIRECTORY: u32 = 0x10;

/// The attribute of reparse points.
pub const FILE_ATTRIBUTE_REPARSE_POINT: u32 = 0x400;

/// The bit of the reparse tags that stand for another name.
pub const REPARSE_TAG_NAME_SURROGATE: u32 = 0x2000_0000;

/// Where the name of a record begins.
pub const HEADER_LENGTH: usize = 88;

/// The bytes of the record at `at`: up to the next one, or to the end of the
/// buffer.
pub open spec fn entry_length(buf: Seq<u8>, at: int) -> int {
    if bytes::le32(buf, at) == 0 {
        buf.len() - at
    } else {
        bytes::le32(buf, at) as int
    }
}

/// Whether there is a whole record at `at`.
pub open spec fn has_record(buf: Seq<u8>, at: int) -> bool {
    let name = bytes::le32(buf, at + 60);
    &&& at + HEADER_LENGTH <= buf.len()
    &&& HEADER_LENGTH + name <= entry_length(buf, at)
    &&& at + HEADER_LENGTH + name <= buf.len()
}

/// The name of the record at `at`, in wide characters.
pub open spec fn wide_name(buf: Seq<u8>, at: int) -> Seq<u16> {
    bytes::units_at(buf, at + HEADER_LENGTH, bytes::le32(buf, at + 60) / 2)
}

/// Whether a name is that of the directory itself or of its parent.
pub open spec fn is_dots(name: Seq<u16>) -> bool {
    name == seq![46u16] || name == seq![46u16, 46u16]
}

/// Whether the record at `at` is a link: a reparse point that stands for
/// another name.
pub open spec fn is_link(buf: Seq<u8>, at: int) -> bool {
    bytes::le32(buf, at + 56) as u32 & FILE_ATTRIBUTE_REPARSE_POINT != 0 && bytes::le32(
        buf,
        at + 68,
    ) as u32 & REPARSE_TAG_NAME_SURROGATE != 0
}

/// The entry of the record at `at`. A link has none, nor has the directory
/// itself or its parent.
pub open spec fn record_entry(buf: Seq<u8>, at: int) -> Option<bulk::Listed> {
    let attributes = bytes::le32(buf, at + 56) as u32;
    let name = bytes::utf16_text(wide_name(buf, at));
    if is_dots(wide_name(buf, at)) || is_link(buf, at) {
        None
    } else {
        let is_dir = attributes & FILE_ATTRIBUTE_DIRECTORY != 0;
        Some(
            bulk::Listed {
                name,
                is_dir,
                size: if is_dir {
                    0
                } else {
                    bytes::le64(buf, at + 40)
                },
                hidden: text::dotted(name) || attributes & FILE_ATTRIBUTE_HIDDEN != 0,
            },
        )
    }
}

/// The entries of the records from `at` on. A record that does not fit the
/// buffer ends the list.
pub open spec fn entries_from(buf: Seq<u8>, at: int) -> Seq<bulk::Listed>
    decreases (if at <= buf.len() { buf.len() - at } else { 0 }),
{
    if !has_record(buf, at) {
        Seq::empty()
    } else {
        let next = bytes::le32(buf, at);
        let rest = if next == 0 {
            Seq::empty()
        } else {
            entries_from(buf, at + next)
        };
        match record_entry(buf, at) {
            Some(entry) => seq![entry] + rest,
            None => rest,
        }
    }
}

/// The entry of the whole record at `at`.
fn read_entry(buf: &[u8], at: usize, name_length: usize) -> (entry: Option<BulkEntry>)
    requires
        at + HEADER_LENGTH + name_length <= buf.len(),
        name_length == bytes::le32(buf@, at as int + 60),
    ensures
        match entry {
            Some(entry) => record_entry(buf@, at as int) == Some(entry@),
            None => record_entry(buf@, at as int) is None,
        },
{
    let units = read_units(buf, at + HEADER_LENGTH, name_length / 2);
    if (units.len() == 1 && units[0] == 46) || (units.len() == 2 && units[0] == 46 && units[1]
        == 46) {
        proof {
            assert(units@ =~= seq![46u16] || units@ =~= seq![46u16, 46u16]);
        }
        return None;
    }
    let attributes: u32 = read_u32(buf, at + 56);
    if attributes & FILE_ATTRIBUTE_REPARSE_POINT != 0 && read_u32(buf, at + 68)
        & REPARSE_TAG_NAME_SURROGATE != 0 {
        return None;
    }
    let name = decode_utf16(units.as_slice());
    let is_dir: bool = attributes & FILE_ATTRIBUTE_DIRECTORY != 0;
    let size: u64 = if is_dir {
        0
    } else {
        read_u64(buf, at + 40)
    };
    let hidden: bool = starts_with_dot(name.as_str()) || attributes & FILE_ATTRIBUTE_HIDDEN != 0;
    Some(BulkEntry { name, is_dir, size, hidden })
}

/// The entries of the records in `buf`. Links are left out, and so are the
/// directory itself and its parent.
pub fn parse_entries(buf: &[u8]) -> (entries: Vec<BulkEntry>)
    ensures
        bulk::entry_views(entries@) == entries_from(buf@, 0),
{
    let mut entries: Vec<BulkEntry> = Vec::new();
    let mut at: usize = 0;
    let ghost all = entries_from(buf@, 0);
    assert(bulk::entry_views(entries@) + all =~= all);
    loop
        invariant_except_break
            at <= buf.len(),
            all == bulk::entry_views(entries@) + entries_from(buf@, at as int),
        ensures
            all == bulk::entry_views(entries@),
        decreases buf.len() - at,
    {
        let ghost found = bulk::entry_views(entries@);
        assert(found + Seq::<bulk::Listed>::empty() =~= found);
        if buf.len() - at < HEADER_LENGTH {
            break;
        }
        let left: usize = buf.len() - at;
        let next: usize = read_u32(buf, at) as usize;
        let name_length: usize = read_u32(buf, at + 60) as usize;
        let length: usize = if next == 0 {
            left
        } else {
            next
        };
        if length < HEADER_LENGTH || name_length > length - HEADER_LENGTH || name_length > left
            - HEADER_LENGTH {
            break;
        }
        let ghost rest = if next == 0 {
            Seq::empty()
        } else {
            entries_from(buf@, at + next)
        };
        match read_entry(buf, at, name_length) {
            Some(entry) => {
                entries.push(entry);
                proof {
                    assert(bulk::entry_views(entries@) =~= found.push(entry@));
                    assert(found + (seq![entry@] + rest) =~= found.push(entry@) + rest);
                }
            },
            None => {},
        }
        let ghost listed = bulk::entry_views(entries@);
        assert(listed + Seq::<bulk::Listed>::empty() =~= listed);
        if next == 0 || next > left {
            break;
        }
        at += next;
    }
    entries
}

/// The status of an open that was refused.
pub const STATUS_ACCESS_DENIED: i32 = -1073741790;

/// Why a directory could not be opened.
pub struct OpenError {
    pub kind: FallbackKind,
    pub message: String,
}

/// A signed 32-bit number, its bits read as unsigned.
pub open spec fn unsigned(status: i32) -> nat {
    if status < 0 {
        (status + 0x1_0000_0000) as nat
    } else {
        status as nat
    }
}

/// What became of opening a directory: a negative status is a failure.
pub fn open_outcome(status: i32) -> (outcome: Result<(), OpenError>)
    ensures
        match outcome {
            Ok(_) => status >= 0,
            Err(error) => {
                &&& status < 0
                &&& error.kind == (if status == STATUS_ACCESS_DENIED {
                    FallbackKind::AccessDenied
                } else {
                    FallbackKind::Open
                })
                &&& error.message@ == "NtOpenFile failed with NTSTATUS 0x"@ + text::hex_padded(
                    unsigned(status),
                    8,
                )
            },
        },
{
    if status >= 0 {
        return Ok(());
    }
    let kind = if status == STATUS_ACCESS_DENIED {
        FallbackKind::AccessDenied
    } else {
        FallbackKind::Open
    };
    let mut message = owned("NtOpenFile failed with NTSTATUS 0x");
    push_hex_padded(&mut message, (status as i64 + 0x1_0000_0000) as u128, 8);
    Err(OpenError { kind, message })
}

/// What became of asking for more entries.
#[derive(Clone, Copy, Debug, PartialEq, Eq, Structural)]
pub enum Page {
    /// There are some.
    Filled,
    /// There are none.
    End,
    /// They could not be read.
    Failed,
}

/// What became of asking for more entries, from the result of the call and the
/// error code that it left.
pub fn query_directory(result: i32, code: Option<i32>) -> (page: Page)
    ensures
        page == (if result != 0 {
            Page::Filled
        } else if code == Some(ERROR_NO_MORE_FILES) || code == Some(ERROR_HANDLE_EOF) {
            Page::End
        } else {
            Page::Failed
        }),
{
    if result != 0 {
        return Page::Filled;
    }
    match code {
        Some(code) => if code == ERROR_NO_MORE_FILES || code == ERROR_HANDLE_EOF {
            Page::End
        } else {
            Page::Failed
        },
        None => Page::Failed,
    }
}

/// A link has no entry, nor has the directory itself or its parent; everything else has
/// one. A directory has no size of its own, and what begins with a dot, or is marked so, is
/// hidden.
pub proof fn lemma_record(buf: Seq<u8>, at: int)
    ensures
        ({
            let attributes = bytes::le32(buf, at + 56) as u32;
            let tag = bytes::le32(buf, at + 68) as u32;
            let name = wide_name(buf, at);
            let entry = record_entry(buf, at);
            let link = attributes & 0x400u32 != 0 && tag & 0x2000_0000u32 != 0;
            let dots = (name.len() == 1 || name.len() == 2) && forall|i: int|
                0 <= i < name.len() ==> #[trigger] name[i] == 46;
            &&& entry is None <==> link || dots
            &&& entry is Some ==> {
                &&& entry->0.is_dir <==> attributes & 0x10u32 != 0
                &&& entry->0.is_dir ==> entry->0.size == 0
                &&& !entry->0.is_dir ==> entry->0.size == bytes::le64(buf, at + 40)
                &&& attributes & 0x2u32 != 0 ==> entry->0.hidden
                &&& entry->0.name.len() > 0 && entry->0.name[0] == '.' ==> entry->0.hidden
            }
        }),
{
    let name = wide_name(buf, at);
    let dots = (name.len() == 1 || name.len() == 2) && forall|i: int|
        0 <= i < name.len() ==> #[trigger] name[i] == 46;
    assert(is_dots(name) <==> dots) by {
        if dots {
            if name.len() == 1 {
                assert(name =~= seq![46u16]);
            } else {
                assert(name =~= seq![46u16, 46u16]);
            }
        }
    }
}

/// A buffer is read record by record, each where the one before it says; the last says
/// nothing.
pub proof fn lemma_entries(buf: Seq<u8>, at: int)
    requires
        has_record(buf, at),
    ensures
        entries_from(buf, at) == (match record_entry(buf, at) {
            Some(entry) => seq![entry],
            None => Seq::empty(),
        }) + if bytes::le32(buf, at) == 0 {
            Seq::empty()
        } else {
            entries_from(buf, at + bytes::le32(buf, at))
        },
{
    let rest = if bytes::le32(buf, at) == 0 {
        Seq::empty()
    } else {
        entries_from(buf, at + bytes::le32(buf, at))
    };
    assert(Seq::<bulk::Listed>::empty() + rest =~= rest);
}

/// Opening fails exactly with a negative status, and of these one says that it may not be
/// opened.
pub proof fn lemma_opened(status: i32, outcome: Result<(), OpenError>)
    requires
        call_ensures(open_outcome, (status,), outcome),
    ensures
        outcome is Err <==> status < 0,
        outcome is Err ==> (outcome->Err_0.kind == FallbackKind::AccessDenied <==> status
            == -1073741790),
        outcome is Err ==> outcome->Err_0.kind != FallbackKind::BulkScan,
{
}

} // verus!
