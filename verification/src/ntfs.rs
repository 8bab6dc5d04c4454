//! Reading an NTFS volume by its file records.
//!
//! The volume answers in pages of update sequence records, which name every
//! file, and in file records, whose data attribute tells how large a file is.
//! What is asked and what is made of each answer is decided here; who asks
//! hands the answers in.

use vstd::prelude::*;

use crate::bytes;
use crate::bytes::{decode_utf16, read_u128, read_u16, read_u32, read_u64, read_units};
use crate::extd::{FILE_ATTRIBUTE_DIRECTORY, FILE_ATTRIBUTE_HIDDEN, FILE_ATTRIBUTE_REPARSE_POINT};
use crate::text;
use crate::text::{eq_ignore_case, owned, push_decimal, push_hex};
use crate::wide;
use crate::wide::{strip_verbatim_prefix, DRIVE_FIXED};

verus! {

/// How many records a summary shows.
pub const SAMPLE_LIMIT: usize = 16;

/// The bytes before the records of a page.
pub const USN_PAGE_HEADER_SIZE: usize = 8;

/// The bytes before the file record in an answer.
pub const FILE_RECORD_OUTPUT_HEADER_SIZE: usize = 12;

pub const FILE_RECORD_HEADER_SIZE: usize = 0x30;

pub const FILE_RECORD_ATTR_OFFSET: usize = 0x14;

pub const ATTR_TYPE_DATA: u32 = 0x80;

pub const ATTR_TYPE_END: u32 = 0xFFFF_FFFF;

pub const USN_RECORD_V2_SIZE: usize = 64;

pub const USN_RECORD_V3_SIZE: usize = 80;

pub const ERROR_ACCESS_DENIED: i32 = 5;

pub const ERROR_NO_MORE_FILES: i32 = 18;

pub const ERROR_HANDLE_EOF: i32 = 38;

pub const ERROR_JOURNAL_NOT_ACTIVE: i32 = 1179;

/// The broad kind of an error.
#[derive(Clone, Copy, Debug, PartialEq, Eq, Structural)]
pub enum ErrorKind {
    InvalidData,
    NotFound,
    Other,
    PermissionDenied,
    UnexpectedEof,
    Unsupported,
}

/// What is wrong with an answer.
#[derive(Clone, Copy, Debug, PartialEq, Eq, Structural)]
pub enum ParseError {
    ShortRecordHeader,
    ShortV2,
    ShortV3,
    NameRange,
    ShortVolumeData,
    ShortFileRecord,
    ShortFileRecordHeader,
    Signature,
    AttributeLength,
    ShortDataAttribute,
    NoDataAttribute,
}

impl ParseError {
    /// What the error says.
    pub open spec fn wording(self) -> Seq<char> {
        match self {
            ParseError::ShortRecordHeader => "short USN record header"@,
            ParseError::ShortV2 => "short USN_RECORD_V2"@,
            ParseError::ShortV3 => "short USN_RECORD_V3"@,
            ParseError::NameRange => "invalid USN filename range"@,
            ParseError::ShortVolumeData => "short NTFS volume data response"@,
            ParseError::ShortFileRecord => "short NTFS file record response"@,
            ParseError::ShortFileRecordHeader => "short NTFS file record header"@,
            ParseError::Signature => "invalid NTFS file record signature"@,
            ParseError::AttributeLength => "invalid NTFS attribute length"@,
            ParseError::ShortDataAttribute => "short nonresident NTFS data attribute"@,
            ParseError::NoDataAttribute => "default NTFS data attribute not found"@,
        }
    }

    /// The kind of the error.
    pub open spec fn sort(self) -> ErrorKind {
        match self {
            ParseError::NameRange | ParseError::Signature | ParseError::AttributeLength
            | ParseError::ShortDataAttribute => ErrorKind::InvalidData,
            ParseError::NoDataAttribute => ErrorKind::NotFound,
            _ => ErrorKind::UnexpectedEof,
        }
    }

    pub fn message(self) -> (message: &'static str)
        ensures
            message@ == self.wording(),
    {
        match self {
            ParseError::ShortRecordHeader => "short USN record header",
            ParseError::ShortV2 => "short USN_RECORD_V2",
            ParseError::ShortV3 => "short USN_RECORD_V3",
            ParseError::NameRange => "invalid USN filename range",
            ParseError::ShortVolumeData => "short NTFS volume data response",
            ParseError::ShortFileRecord => "short NTFS file record response",
            ParseError::ShortFileRecordHeader => "short NTFS file record header",
            ParseError::Signature => "invalid NTFS file record signature",
            ParseError::AttributeLength => "invalid NTFS attribute length",
            ParseError::ShortDataAttribute => "short nonresident NTFS data attribute",
            ParseError::NoDataAttribute => "default NTFS data attribute not found",
        }
    }

    pub fn kind(self) -> (kind: ErrorKind)
        ensures
            kind == self.sort(),
    {
        match self {
            ParseError::NameRange | ParseError::Signature | ParseError::AttributeLength
            | ParseError::ShortDataAttribute => ErrorKind::InvalidData,
            ParseError::NoDataAttribute => ErrorKind::NotFound,
            _ => ErrorKind::UnexpectedEof,
        }
    }
}

/// Why a volume could not be read.
pub enum NtfsError {
    /// The root of the volume has no drive.
    UnsupportedRoot { root: String },
    /// The path is on another file system.
    NotNtfs { path: String, filesystem: String },
    /// The volume may not be enumerated.
    AccessDenied { device: String },
    /// Only records with short ids can be opened.
    OpenNeedsV2 { version: u16 },
    /// Only records with short ids have file records.
    RecordNeedsV2 { version: u16 },
    /// The id of a file is too large.
    LargeId { id: u128 },
    /// An answer holds a file record of a wrong length.
    RecordLength { length: u32, returned: usize },
    /// An answer could not be read.
    Parse(ParseError),
    /// The system refused, with its error code where it gave one.
    System { code: Option<i32> },
}

impl NtfsError {
    /// What the error says. The system's own errors say nothing here.
    pub open spec fn wording(self) -> Seq<char> {
        match self {
            NtfsError::UnsupportedRoot { root } => "unsupported volume root: "@ + root@,
            NtfsError::NotNtfs { path, filesystem } => path@ + " is on "@ + filesystem@
                + ", not NTFS"@,
            NtfsError::AccessDenied { device } => "access denied enumerating USN data for "@
                + device@,
            NtfsError::OpenNeedsV2 { version } =>
                "OpenFileById probe currently supports only V2 IDs, got v"@ + text::decimal(
                version as nat,
            ),
            NtfsError::RecordNeedsV2 { version } =>
                "FSCTL_GET_NTFS_FILE_RECORD probe currently supports only V2 IDs, got v"@
                + text::decimal(version as nat),
            NtfsError::LargeId { id } => "file id does not fit in i64: 0x"@ + text::hex(id as nat),
            NtfsError::RecordLength { length, returned } =>
                "invalid NTFS file record length: record_length="@ + text::decimal(length as nat)
                + " bytes_returned="@ + text::decimal(returned as nat) + " header_size="@
                + text::decimal(FILE_RECORD_OUTPUT_HEADER_SIZE as nat),
            NtfsError::Parse(error) => error.wording(),
            NtfsError::System { code } => Seq::empty(),
        }
    }

    /// The kind of the error.
    pub open spec fn sort(self) -> ErrorKind {
        match self {
            NtfsError::UnsupportedRoot { .. } | NtfsError::NotNtfs { .. }
            | NtfsError::OpenNeedsV2 { .. } | NtfsError::RecordNeedsV2 { .. } =>
                ErrorKind::Unsupported,
            NtfsError::AccessDenied { .. } => ErrorKind::PermissionDenied,
            NtfsError::LargeId { .. } => ErrorKind::InvalidData,
            NtfsError::RecordLength { .. } => ErrorKind::UnexpectedEof,
            NtfsError::Parse(error) => error.sort(),
            NtfsError::System { .. } => ErrorKind::Other,
        }
    }

    pub fn message(&self) -> (message: String)
        ensures
            message@ == self.wording(),
    {
        let mut message = String::new();
        match self {
            NtfsError::UnsupportedRoot { root } => {
                message.append("unsupported volume root: ");
                message.append(root.as_str());
            },
            NtfsError::NotNtfs { path, filesystem } => {
                message.append(path.as_str());
                message.append(" is on ");
                message.append(filesystem.as_str());
                message.append(", not NTFS");
            },
            NtfsError::AccessDenied { device } => {
                message.append("access denied enumerating USN data for ");
                message.append(device.as_str());
            },
            NtfsError::OpenNeedsV2 { version } => {
                message.append("OpenFileById probe currently supports only V2 IDs, got v");
                push_decimal(&mut message, *version as u64);
            },
            NtfsError::RecordNeedsV2 { version } => {
                message.append(
                    "FSCTL_GET_NTFS_FILE_RECORD probe currently supports only V2 IDs, got v",
                );
                push_decimal(&mut message, *version as u64);
            },
            NtfsError::LargeId { id } => {
                message.append("file id does not fit in i64: 0x");
                push_hex(&mut message, *id);
            },
            NtfsError::RecordLength { length, returned } => {
                message.append("invalid NTFS file record length: record_length=");
                push_decimal(&mut message, *length as u64);
                message.append(" bytes_returned=");
                push_decimal(&mut message, *returned as u64);
                message.append(" header_size=");
                push_decimal(&mut message, FILE_RECORD_OUTPUT_HEADER_SIZE as u64);
            },
            NtfsError::Parse(error) => {
                message.append(error.message());
            },
            NtfsError::System { code } => {},
        }
        assert(message@ =~= self.wording());
        message
    }

    pub fn kind(&self) -> (kind: ErrorKind)
        ensures
            kind == self.sort(),
    {
        match self {
            NtfsError::UnsupportedRoot { .. } | NtfsError::NotNtfs { .. }
            | NtfsError::OpenNeedsV2 { .. } | NtfsError::RecordNeedsV2 { .. } =>
                ErrorKind::Unsupported,
            NtfsError::AccessDenied { .. } => ErrorKind::PermissionDenied,
            NtfsError::LargeId { .. } => ErrorKind::InvalidData,
            NtfsError::RecordLength { .. } => ErrorKind::UnexpectedEof,
            NtfsError::Parse(error) => error.kind(),
            NtfsError::System { .. } => ErrorKind::Other,
        }
    }
}

/// What is known of the volume that a path is on.
pub struct NtfsEligibility {
    pub original_path: String,
    pub volume_root: String,
    pub volume_device: String,
    pub filesystem_name: String,
    pub drive_type: u32,
    pub can_open_volume: bool,
    pub open_error: Option<i32>,
}

impl NtfsEligibility {
    /// Whether the file system is NTFS.
    pub open spec fn ntfs(&self) -> bool {
        text::lowered(self.filesystem_name@) == text::lowered("NTFS"@)
    }

    pub fn is_ntfs(&self) -> (yes: bool)
        ensures
            yes == self.ntfs(),
    {
        eq_ignore_case(self.filesystem_name.as_str(), "NTFS")
    }

    pub fn is_local_fixed_drive(&self) -> (yes: bool)
        ensures
            yes == (self.drive_type == DRIVE_FIXED),
    {
        self.drive_type == DRIVE_FIXED
    }

    /// Whether the volume can be read by its file records.
    pub fn is_eligible(&self) -> (yes: bool)
        ensures
            yes == (self.ntfs() && self.drive_type == DRIVE_FIXED && self.can_open_volume),
    {
        self.is_ntfs() && self.is_local_fixed_drive() && self.can_open_volume
    }

    /// Whether the volume could not be opened for want of rights.
    pub fn needs_elevation(&self) -> (yes: bool)
        ensures
            yes == (self.open_error == Some(ERROR_ACCESS_DENIED)),
    {
        match self.open_error {
            Some(code) => code == ERROR_ACCESS_DENIED,
            None => false,
        }
    }

    /// Refuses a path on another file system.
    fn require_ntfs(&self, path: &str) -> (outcome: Result<(), NtfsError>)
        ensures
            outcome is Ok <==> self.ntfs(),
            outcome matches Err(error) ==> refused(error, path@, *self),
    {
        if self.is_ntfs() {
            Ok(())
        } else {
            Err(
                NtfsError::NotNtfs {
                    path: owned(path),
                    filesystem: self.filesystem_name.clone(),
                },
            )
        }
    }
}

/// Whether an error says that `path` is not on NTFS.
pub open spec fn refused(error: NtfsError, path: Seq<char>, volume: NtfsEligibility) -> bool {
    error matches NtfsError::NotNtfs { path: p, filesystem } && p@ == path && filesystem@
        == volume.filesystem_name@
}

/// What is known of the volume with the root `volume_root`, from its file
/// system, its drive type and the attempt to open it. A root without a drive
/// is refused.
pub fn ntfs_eligibility(
    path: &str,
    volume_root: &str,
    filesystem_name: &str,
    drive_type: u32,
    opened: Result<(), Option<i32>>,
) -> (known: Result<NtfsEligibility, NtfsError>)
    ensures
        known is Ok <==> wide::volume_device(volume_root@) is Some,
        known matches Ok(volume) ==> {
            &&& volume.original_path@ == path@
            &&& volume.volume_root@ == volume_root@
            &&& wide::volume_device(volume_root@) == Some(volume.volume_device@)
            &&& volume.filesystem_name@ == filesystem_name@
            &&& volume.drive_type == drive_type
            &&& volume.can_open_volume == (opened is Ok)
            &&& volume.open_error == (match opened {
                Ok(_) => None,
                Err(code) => code,
            })
        },
        known matches Err(error) ==> (error matches NtfsError::UnsupportedRoot { root } && root@
            == volume_root@),
{
    match wide::volume_device_from_root(volume_root) {
        None => Err(NtfsError::UnsupportedRoot { root: owned(volume_root) }),
        Some(volume_device) => {
            let (can_open_volume, open_error) = match opened {
                Ok(_) => (true, None),
                Err(code) => (false, code),
            };
            Ok(
                NtfsEligibility {
                    original_path: owned(path),
                    volume_root: owned(volume_root),
                    volume_device,
                    filesystem_name: owned(filesystem_name),
                    drive_type,
                    can_open_volume,
                    open_error,
                },
            )
        },
    }
}

/// One record of a volume.
pub struct NtfsRecordSample {
    pub file_id: u128,
    pub parent_file_id: u128,
    pub attributes: u32,
    pub name: String,
    pub major_version: u16,
}

/// A record as a mathematical value.
pub struct Record {
    pub file_id: u128,
    pub parent_file_id: u128,
    pub attributes: u32,
    pub name: Seq<char>,
    pub major_version: u16,
}

impl View for NtfsRecordSample {
    type V = Record;

    open spec fn view(&self) -> Record {
        Record {
            file_id: self.file_id,
            parent_file_id: self.parent_file_id,
            attributes: self.attributes,
            name: self.name@,
            major_version: self.major_version,
        }
    }
}

impl Clone for NtfsRecordSample {
    fn clone(&self) -> (copy: Self)
        ensures
            copy@ == self@,
    {
        NtfsRecordSample {
            file_id: self.file_id,
            parent_file_id: self.parent_file_id,
            attributes: self.attributes,
            name: self.name.clone(),
            major_version: self.major_version,
        }
    }
}

/// Records as mathematical values.
pub open spec fn record_views(samples: Seq<NtfsRecordSample>) -> Seq<Record> {
    samples.map_values(|sample: NtfsRecordSample| sample@)
}

/// The name of `count` bytes at `at` in a record.
pub open spec fn record_name(record: Seq<u8>, at: nat, count: nat) -> Result<Seq<char>, ParseError> {
    if count % 2 != 0 || at + count > record.len() {
        Err(ParseError::NameRange)
    } else {
        Ok(bytes::utf16_text(bytes::units_at(record, at as int, count / 2)))
    }
}

/// The name of `len_bytes` bytes at `offset` in a record.
pub fn wide_name_from_record(record: &[u8], offset: usize, len_bytes: usize) -> (name: Result<
    String,
    ParseError,
>)
    ensures
        match name {
            Ok(name) => record_name(record@, offset as nat, len_bytes as nat) == Ok::<
                Seq<char>,
                ParseError,
            >(name@),
            Err(error) => record_name(record@, offset as nat, len_bytes as nat) == Err::<
                Seq<char>,
                ParseError,
            >(error),
        },
{
    if len_bytes % 2 != 0 || offset > record.len() || len_bytes > record.len() - offset {
        return Err(ParseError::NameRange);
    }
    let units = read_units(record, offset, len_bytes / 2);
    Ok(decode_utf16(units.as_slice()))
}

/// A record of version 2.
pub open spec fn v2_record(record: Seq<u8>) -> Result<Record, ParseError> {
    if record.len() < USN_RECORD_V2_SIZE {
        Err(ParseError::ShortV2)
    } else {
        match record_name(record, bytes::le16(record, 58), bytes::le16(record, 56)) {
            Ok(name) => Ok(
                Record {
                    file_id: bytes::le64(record, 8) as u128,
                    parent_file_id: bytes::le64(record, 16) as u128,
                    attributes: bytes::le32(record, 52) as u32,
                    name,
                    major_version: bytes::le16(record, 4) as u16,
                },
            ),
            Err(error) => Err(error),
        }
    }
}

/// A record of version 3, with long ids.
pub open spec fn v3_record(record: Seq<u8>) -> Result<Record, ParseError> {
    if record.len() < USN_RECORD_V3_SIZE {
        Err(ParseError::ShortV3)
    } else {
        match record_name(record, bytes::le16(record, 74), bytes::le16(record, 72)) {
            Ok(name) => Ok(
                Record {
                    file_id: bytes::le128(record, 8) as u128,
                    parent_file_id: bytes::le128(record, 24) as u128,
                    attributes: bytes::le32(record, 68) as u32,
                    name,
                    major_version: bytes::le16(record, 4) as u16,
                },
            ),
            Err(error) => Err(error),
        }
    }
}

pub fn parse_v2_record(record: &[u8]) -> (parsed: Result<NtfsRecordSample, ParseError>)
    ensures
        match parsed {
            Ok(parsed) => v2_record(record@) == Ok::<Record, ParseError>(parsed@),
            Err(error) => v2_record(record@) == Err::<Record, ParseError>(error),
        },
{
    if record.len() < USN_RECORD_V2_SIZE {
        return Err(ParseError::ShortV2);
    }
    let offset: usize = read_u16(record, 58) as usize;
    let length: usize = read_u16(record, 56) as usize;
    match wide_name_from_record(record, offset, length) {
        Ok(name) => Ok(
            NtfsRecordSample {
                file_id: read_u64(record, 8) as u128,
                parent_file_id: read_u64(record, 16) as u128,
                attributes: read_u32(record, 52),
                name,
                major_version: read_u16(record, 4),
            },
        ),
        Err(error) => Err(error),
    }
}

pub fn parse_v3_record(record: &[u8]) -> (parsed: Result<NtfsRecordSample, ParseError>)
    ensures
        match parsed {
            Ok(parsed) => v3_record(record@) == Ok::<Record, ParseError>(parsed@),
            Err(error) => v3_record(record@) == Err::<Record, ParseError>(error),
        },
{
    if record.len() < USN_RECORD_V3_SIZE {
        return Err(ParseError::ShortV3);
    }
    let offset: usize = read_u16(record, 74) as usize;
    let length: usize = read_u16(record, 72) as usize;
    match wide_name_from_record(record, offset, length) {
        Ok(name) => Ok(
            NtfsRecordSample {
                file_id: read_u128(record, 8),
                parent_file_id: read_u128(record, 24),
                attributes: read_u32(record, 68),
                name,
                major_version: read_u16(record, 4),
            },
        ),
        Err(error) => Err(error),
    }
}

/// The length that the record at the start of `buf` has.
pub fn read_record_length(buf: &[u8]) -> (length: Result<usize, ParseError>)
    ensures
        length is Ok <==> buf@.len() >= 4,
        length matches Ok(n) ==> n == bytes::le32(buf@, 0),
        length matches Err(error) ==> error == ParseError::ShortRecordHeader,
{
    if buf.len() < 4 {
        return Err(ParseError::ShortRecordHeader);
    }
    Ok(read_u32(buf, 0) as usize)
}

/// What stands at one place of a page.
pub enum Step {
    /// No further record.
    End,
    /// Something that is no record.
    Fault(ParseError),
    /// A record of another version, this many bytes long.
    Skip(nat),
    /// A record, this many bytes long.
    Found(Record, nat),
}

/// What stands at `at` of a page. A record that reaches past the page ends it;
/// one too short for its version is a fault.
pub open spec fn step(page: Seq<u8>, at: int) -> Step {
    let length = bytes::le32(page, at);
    let record = page.subrange(at, at + length);
    let version = bytes::le16(record, 4);
    let parsed = if version == 2 {
        v2_record(record)
    } else {
        v3_record(record)
    };
    if page.len() - at < 4 {
        Step::Fault(ParseError::ShortRecordHeader)
    } else if length == 0 || at + length > page.len() {
        Step::End
    } else if length < 6 {
        Step::Fault(ParseError::ShortRecordHeader)
    } else if version != 2 && version != 3 {
        Step::Skip(length)
    } else {
        match parsed {
            Ok(record) => Step::Found(record, length),
            Err(error) => Step::Fault(error),
        }
    }
}

/// What was read at one place of a page.
enum Read {
    End,
    Fault(ParseError),
    Skip(usize),
    Found(NtfsRecordSample, usize),
}

spec fn read_as(read: Read) -> Step {
    match read {
        Read::End => Step::End,
        Read::Fault(error) => Step::Fault(error),
        Read::Skip(length) => Step::Skip(length as nat),
        Read::Found(record, length) => Step::Found(record@, length as nat),
    }
}

fn read_step(page: &[u8], at: usize) -> (read: Read)
    requires
        at < page.len(),
    ensures
        read_as(read) == step(page@, at as int),
        match read {
            Read::Skip(length) => 0 < length <= page.len() - at,
            Read::Found(record, length) => 0 < length <= page.len() - at,
            _ => true,
        },
{
    let rest = vstd::slice::slice_subrange(page, at, page.len());
    let length: usize = match read_record_length(rest) {
        Ok(length) => length,
        Err(error) => {
            return Read::Fault(error);
        },
    };
    assert(bytes::le32(rest@, 0) == bytes::le32(page@, at as int));
    if length == 0 || length > page.len() - at {
        return Read::End;
    }
    if length < 6 {
        return Read::Fault(ParseError::ShortRecordHeader);
    }
    let record = vstd::slice::slice_subrange(page, at, at + length);
    let version: u16 = read_u16(record, 4);
    let parsed = if version == 2 {
        parse_v2_record(record)
    } else if version == 3 {
        parse_v3_record(record)
    } else {
        return Read::Skip(length);
    };
    match parsed {
        Ok(record) => Read::Found(record, length),
        Err(error) => Read::Fault(error),
    }
}

/// How a page ended.
pub enum PageEnd {
    /// It was read to its end.
    Whole,
    /// There were enough records.
    Full,
    /// It could not be read further.
    Fault(ParseError),
}

/// The records from `at` on, where there is room for `room` of them, and how
/// the page ended.
pub open spec fn page_records(page: Seq<u8>, at: int, room: nat) -> (Seq<Record>, PageEnd)
    decreases page.len() - at,
{
    if at >= page.len() {
        (Seq::empty(), PageEnd::Whole)
    } else if room == 0 {
        (Seq::empty(), PageEnd::Full)
    } else {
        match step(page, at) {
            Step::End => (Seq::empty(), PageEnd::Whole),
            Step::Fault(error) => (Seq::empty(), PageEnd::Fault(error)),
            Step::Skip(length) => page_records(page, at + length, room),
            Step::Found(record, length) => {
                let (rest, end) = page_records(page, at + length, (room - 1) as nat);
                (seq![record] + rest, end)
            },
        }
    }
}

/// How many records have one of the bits of `mask` in their attributes.
pub open spec fn tally(records: Seq<Record>, mask: u32) -> nat
    decreases records.len(),
{
    if records.len() == 0 {
        0
    } else {
        tally(records.drop_last(), mask) + if records.last().attributes & mask != 0 {
            1nat
        } else {
            0nat
        }
    }
}

/// How many records have this version.
pub open spec fn tally_version(records: Seq<Record>, version: u16) -> nat
    decreases records.len(),
{
    if records.len() == 0 {
        0
    } else {
        tally_version(records.drop_last(), version) + if records.last().major_version == version {
            1nat
        } else {
            0nat
        }
    }
}

/// The bytes of the longest name.
pub open spec fn longest_name(records: Seq<Record>) -> nat
    decreases records.len(),
{
    if records.len() == 0 {
        0
    } else {
        let before = longest_name(records.drop_last());
        let last = vstd::utf8::encode_utf8(records.last().name).len();
        if last > before {
            last
        } else {
            before
        }
    }
}

proof fn lemma_tallies(records: Seq<Record>)
    ensures
        forall|mask: u32| #[trigger] tally(records, mask) <= records.len(),
        forall|version: u16| #[trigger] tally_version(records, version) <= records.len(),
    decreases records.len(),
{
    if records.len() > 0 {
        lemma_tallies(records.drop_last());
        assert forall|mask: u32| #[trigger] tally(records, mask) <= records.len() by {
            assert(tally(records.drop_last(), mask) <= records.len() - 1);
        }
        assert forall|version: u16| #[trigger]
            tally_version(records, version) <= records.len() by {
            assert(tally_version(records.drop_last(), version) <= records.len() - 1);
        }
    }
}

/// What was found on a volume.
pub struct NtfsEnumSummary {
    pub volume_root: String,
    pub volume_device: String,
    pub total_records: u64,
    pub files: u64,
    pub directories: u64,
    pub hidden: u64,
    pub reparse_points: u64,
    pub v2_records: u64,
    pub v3_records: u64,
    pub max_name_len: usize,
    pub next_file_reference_number: u64,
    pub truncated: bool,
    pub samples: Vec<NtfsRecordSample>,
}

/// The first records that a summary shows.
pub open spec fn shown_first(records: Seq<Record>) -> Seq<Record> {
    if records.len() <= SAMPLE_LIMIT {
        records
    } else {
        records.take(SAMPLE_LIMIT as int)
    }
}

/// Whether a summary counts exactly these records.
pub open spec fn summarizes(summary: NtfsEnumSummary, records: Seq<Record>) -> bool {
    &&& summary.total_records == records.len()
    &&& summary.directories == tally(records, FILE_ATTRIBUTE_DIRECTORY)
    &&& summary.files == records.len() - tally(records, FILE_ATTRIBUTE_DIRECTORY)
    &&& summary.hidden == tally(records, FILE_ATTRIBUTE_HIDDEN)
    &&& summary.reparse_points == tally(records, FILE_ATTRIBUTE_REPARSE_POINT)
    &&& summary.v2_records == tally_version(records, 2)
    &&& summary.v3_records == tally_version(records, 3)
    &&& summary.max_name_len == longest_name(records)
    &&& record_views(summary.samples@) == shown_first(records)
}

/// Counts one more record.
fn update_summary(
    summary: &mut NtfsEnumSummary,
    record: NtfsRecordSample,
    Ghost(records): Ghost<Seq<Record>>,
)
    requires
        summarizes(*old(summary), records),
        records.len() < u64::MAX,
    ensures
        summarizes(*final(summary), records.push(record@)),
        final(summary).volume_root == old(summary).volume_root,
        final(summary).volume_device == old(summary).volume_device,
        final(summary).next_file_reference_number == old(summary).next_file_reference_number,
        final(summary).truncated == old(summary).truncated,
{
    proof {
        lemma_tallies(records);
        assert(records.push(record@).drop_last() =~= records);
    }
    summary.total_records += 1;
    if record.attributes & FILE_ATTRIBUTE_DIRECTORY != 0 {
        summary.directories += 1;
    } else {
        summary.files += 1;
    }
    if record.attributes & FILE_ATTRIBUTE_HIDDEN != 0 {
        summary.hidden += 1;
    }
    if record.attributes & FILE_ATTRIBUTE_REPARSE_POINT != 0 {
        summary.reparse_points += 1;
    }
    if record.major_version == 2 {
        summary.v2_records += 1;
    } else if record.major_version == 3 {
        summary.v3_records += 1;
    }
    let length: usize = record.name.as_str().as_bytes().len();
    if length > summary.max_name_len {
        summary.max_name_len = length;
    }
    assert(record_views(summary.samples@).len() == summary.samples@.len());
    if summary.samples.len() < SAMPLE_LIMIT {
        summary.samples.push(record);
        assert(record_views(summary.samples@) =~= shown_first(records.push(record@)));
    } else {
        assert(record_views(summary.samples@) =~= shown_first(records.push(record@)));
    }
}

/// Whether an error code says that there is nothing more to read.
pub open spec fn at_end(code: Option<i32>) -> bool {
    code == Some(ERROR_HANDLE_EOF) || code == Some(ERROR_NO_MORE_FILES) || code == Some(
        ERROR_JOURNAL_NOT_ACTIVE,
    )
}

fn is_at_end(code: Option<i32>) -> (yes: bool)
    ensures
        yes == at_end(code),
{
    match code {
        Some(code) => code == ERROR_HANDLE_EOF || code == ERROR_NO_MORE_FILES || code
            == ERROR_JOURNAL_NOT_ACTIVE,
        None => false,
    }
}

/// The enumeration of a volume, page by page.
pub struct VolumeEnumeration {
    summary: NtfsEnumSummary,
    cap: usize,
    done: bool,
    seen: Ghost<Seq<Record>>,
}

impl VolumeEnumeration {
    /// The records that were counted.
    pub closed spec fn records(&self) -> Seq<Record> {
        self.seen@
    }

    /// How many records are counted at most.
    pub closed spec fn limit(&self) -> nat {
        self.cap as nat
    }

    /// Whether nothing more is to be asked.
    pub closed spec fn finished(&self) -> bool {
        self.done
    }

    /// The file reference number that the next page begins at.
    pub closed spec fn position(&self) -> u64 {
        self.summary.next_file_reference_number
    }

    /// Whether the limit cut the enumeration short.
    pub closed spec fn cut(&self) -> bool {
        self.summary.truncated
    }

    /// The root and the device of the volume.
    pub closed spec fn volume(&self) -> (Seq<char>, Seq<char>) {
        (self.summary.volume_root@, self.summary.volume_device@)
    }

    /// What every enumeration keeps: the summary counts the records, and they
    /// are within the limit.
    pub closed spec fn valid(&self) -> bool {
        &&& summarizes(self.summary, self.seen@)
        &&& self.seen@.len() <= self.cap
    }

    /// Where the next page is to begin; None once the enumeration is over.
    pub fn next_request(&self) -> (start: Option<u64>)
        ensures
            start == (if self.finished() {
                None
            } else {
                Some(self.position())
            }),
    {
        if self.done {
            None
        } else {
            Some(self.summary.next_file_reference_number)
        }
    }

    /// Takes the answer to a request. An answer without a header ends the
    /// enumeration, and so does the limit. An answer that cannot be read is an
    /// error.
    pub fn take_page(&mut self, page: &[u8]) -> (outcome: Result<(), ParseError>)
        requires
            old(self).valid(),
        ensures
            final(self).valid(),
            final(self).limit() == old(self).limit(),
            final(self).volume() == old(self).volume(),
            ({
                let room = (old(self).limit() - old(self).records().len()) as nat;
                let (found, end) = page_records(page@, USN_PAGE_HEADER_SIZE as int, room);
                if page@.len() < USN_PAGE_HEADER_SIZE {
                    &&& outcome is Ok
                    &&& final(self).finished()
                    &&& final(self).records() == old(self).records()
                    &&& final(self).position() == old(self).position()
                    &&& final(self).cut() == old(self).cut()
                } else {
                    &&& final(self).records() == old(self).records() + found
                    &&& final(self).position() == bytes::le64(page@, 0)
                    &&& match end {
                        PageEnd::Whole => outcome is Ok && final(self).finished() == old(self).finished() && final(self).cut() == old(self).cut(),
                        PageEnd::Full => outcome is Ok && final(self).finished() && final(self).cut(),
                        PageEnd::Fault(error) => outcome == Err::<(), ParseError>(error) && final(self).finished() && final(self).cut() == old(self).cut(),
                    }
                }
            }),
    {
        if page.len() < USN_PAGE_HEADER_SIZE {
            self.done = true;
            return Ok(());
        }
        self.summary.next_file_reference_number = read_u64(page, 0);
        let ghost before = self.seen@;
        let ghost room = (self.cap - before.len()) as nat;
        let ghost whole = page_records(page@, USN_PAGE_HEADER_SIZE as int, room);
        let mut at: usize = USN_PAGE_HEADER_SIZE;
        assert(before + whole.0 =~= self.seen@ + whole.0);
        while at < page.len()
            invariant
                at <= page.len(),
                self.valid(),
                self.cap == old(self).cap,
                self.done == old(self).done,
                self.summary.truncated == old(self).summary.truncated,
                self.summary.volume_root == old(self).summary.volume_root,
                self.summary.volume_device == old(self).summary.volume_device,
                self.summary.next_file_reference_number == bytes::le64(page@, 0),
                ({
                    let left = page_records(
                        page@,
                        at as int,
                        (self.cap - self.seen@.len()) as nat,
                    );
                    before + whole.0 == self.seen@ + left.0 && whole.1 == left.1
                }),
                before == old(self).records(),
                whole == page_records(
                    page@,
                    USN_PAGE_HEADER_SIZE as int,
                    (self.cap - before.len()) as nat,
                ),
                USN_PAGE_HEADER_SIZE <= page.len(),
            ensures
                self.valid(),
                self.cap == old(self).cap,
                self.done == old(self).done,
                self.summary.truncated == old(self).summary.truncated,
                self.summary.volume_root == old(self).summary.volume_root,
                self.summary.volume_device == old(self).summary.volume_device,
                self.summary.next_file_reference_number == bytes::le64(page@, 0),
                before + whole.0 == self.seen@,
                whole.1 is Whole,
            decreases page.len() - at,
        {
            let ghost none = Seq::<Record>::empty();
            assert(self.seen@ + none =~= self.seen@);
            if self.summary.total_records >= self.cap as u64 {
                self.summary.truncated = true;
                self.done = true;
                return Ok(());
            }
            match read_step(page, at) {
                Read::End => {
                    break;
                },
                Read::Fault(error) => {
                    self.done = true;
                    return Err(error);
                },
                Read::Skip(length) => {
                    at += length;
                },
                Read::Found(record, length) => {
                    let ghost seen = self.seen@;
                    let ghost rest = page_records(
                        page@,
                        at + length,
                        (self.cap - seen.len() - 1) as nat,
                    );
                    proof {
                        assert(seen + (seq![record@] + rest.0) =~= seen.push(record@) + rest.0);
                    }
                    update_summary(&mut self.summary, record, Ghost(self.seen@));
                    self.seen = Ghost(self.seen@.push(record@));
                    at += length;
                },
            }
            proof {
                if at >= page.len() {
                    assert(self.seen@ + Seq::<Record>::empty() =~= self.seen@);
                }
            }
        }
        Ok(())
    }

    /// Takes a refusal in place of an answer. Some error codes say that there
    /// is nothing more; the others are errors.
    pub fn take_failure(&mut self, code: Option<i32>) -> (outcome: Result<(), NtfsError>)
        requires
            old(self).valid(),
        ensures
            final(self).valid(),
            final(self).finished(),
            final(self).records() == old(self).records(),
            final(self).volume() == old(self).volume(),
            final(self).limit() == old(self).limit(),
            final(self).position() == old(self).position(),
            final(self).cut() == old(self).cut(),
            outcome is Ok <==> at_end(code),
            outcome matches Err(error) ==> if code == Some(ERROR_ACCESS_DENIED) {
                error matches NtfsError::AccessDenied { device } && device@ == old(self).volume().1
            } else {
                error == (NtfsError::System { code })
            },
    {
        self.done = true;
        if is_at_end(code) {
            return Ok(());
        }
        if let Some(number) = code {
            if number == ERROR_ACCESS_DENIED {
                return Err(NtfsError::AccessDenied { device: self.summary.volume_device.clone() });
            }
        }
        Err(NtfsError::System { code })
    }

    /// What was found.
    pub fn into_summary(self) -> (summary: NtfsEnumSummary)
        requires
            self.valid(),
        ensures
            summarizes(summary, self.records()),
            summary.volume_root@ == self.volume().0,
            summary.volume_device@ == self.volume().1,
            summary.next_file_reference_number == self.position(),
            summary.truncated == self.cut(),
    {
        self.summary
    }
}

/// Begins the enumeration of the volume that `path` is on, of at most `limit`
/// records.
pub fn enumerate_volume_for_path(
    path: &str,
    eligibility: &NtfsEligibility,
    limit: Option<usize>,
) -> (begun: Result<VolumeEnumeration, NtfsError>)
    ensures
        begun is Ok <==> eligibility.ntfs(),
        begun matches Err(error) ==> refused(error, path@, *eligibility),
        begun matches Ok(run) ==> {
            &&& run.valid()
            &&& run.records() == Seq::<Record>::empty()
            &&& run.limit() == (match limit {
                Some(limit) => limit as nat,
                None => usize::MAX as nat,
            })
            &&& !run.finished()
            &&& run.position() == 0
            &&& !run.cut()
            &&& run.volume() == (eligibility.volume_root@, eligibility.volume_device@)
        },
{
    match eligibility.require_ntfs(path) {
        Err(error) => Err(error),
        Ok(_) => {
            let cap: usize = match limit {
                Some(limit) => limit,
                None => usize::MAX,
            };
            let summary = NtfsEnumSummary {
                volume_root: eligibility.volume_root.clone(),
                volume_device: eligibility.volume_device.clone(),
                total_records: 0,
                files: 0,
                directories: 0,
                hidden: 0,
                reparse_points: 0,
                v2_records: 0,
                v3_records: 0,
                max_name_len: 0,
                next_file_reference_number: 0,
                truncated: false,
                samples: Vec::new(),
            };
            assert(record_views(summary.samples@) =~= Seq::<Record>::empty());
            Ok(VolumeEnumeration { summary, cap, done: false, seen: Ghost(Seq::empty()) })
        },
    }
}

/// Whether a record is that of a directory.
pub open spec fn is_directory(record: Record) -> bool {
    record.attributes & FILE_ATTRIBUTE_DIRECTORY != 0
}

/// The files from `at` of a page on, `room` of them at most, and what was
/// wrong with the page.
pub open spec fn page_files(page: Seq<u8>, at: int, room: nat) -> (Seq<Record>, Option<ParseError>)
    decreases page.len() - at,
{
    if at >= page.len() || room == 0 {
        (Seq::empty(), None)
    } else {
        match step(page, at) {
            Step::End => (Seq::empty(), None),
            Step::Fault(error) => (Seq::empty(), Some(error)),
            Step::Skip(length) => page_files(page, at + length, room),
            Step::Found(record, length) => if is_directory(record) {
                page_files(page, at + length, room)
            } else {
                let (rest, fault) = page_files(page, at + length, (room - 1) as nat);
                (seq![record] + rest, fault)
            },
        }
    }
}

/// The search for the first files of a volume, page by page.
pub struct SampleCollection {
    samples: Vec<NtfsRecordSample>,
    limit: usize,
    position: u64,
    done: bool,
}

impl SampleCollection {
    /// The files that were found.
    pub closed spec fn files(&self) -> Seq<Record> {
        record_views(self.samples@)
    }

    /// How many files are looked for.
    pub closed spec fn wanted(&self) -> nat {
        self.limit as nat
    }

    /// Whether there is no further answer to take.
    pub closed spec fn finished(&self) -> bool {
        self.done
    }

    /// The file reference number that the next page begins at.
    pub closed spec fn start(&self) -> u64 {
        self.position
    }

    /// What every search keeps: no more files than wanted.
    pub closed spec fn valid(&self) -> bool {
        self.samples@.len() <= self.limit
    }

    /// Where the next page is to begin; None once enough was found or there is
    /// no more.
    pub fn next_request(&self) -> (start: Option<u64>)
        ensures
            start == (if self.finished() || self.files().len() >= self.wanted() {
                None
            } else {
                Some(self.start())
            }),
    {
        if self.done || self.samples.len() >= self.limit {
            None
        } else {
            Some(self.position)
        }
    }

    /// Takes the answer to a request. An answer without a header ends the
    /// search; one that cannot be read is an error.
    pub fn take_page(&mut self, page: &[u8]) -> (outcome: Result<(), ParseError>)
        requires
            old(self).valid(),
        ensures
            final(self).valid(),
            final(self).wanted() == old(self).wanted(),
            ({
                let room = (old(self).wanted() - old(self).files().len()) as nat;
                let (found, fault) = page_files(page@, USN_PAGE_HEADER_SIZE as int, room);
                if page@.len() < USN_PAGE_HEADER_SIZE {
                    &&& outcome is Ok
                    &&& final(self).finished()
                    &&& final(self).files() == old(self).files()
                    &&& final(self).start() == old(self).start()
                } else {
                    &&& final(self).files() == old(self).files() + found
                    &&& final(self).start() == bytes::le64(page@, 0)
                    &&& match fault {
                        None => outcome is Ok && final(self).finished() == old(self).finished(),
                        Some(error) => outcome == Err::<(), ParseError>(error) && final(
                            self).finished(),
                    }
                }
            }),
    {
        if page.len() < USN_PAGE_HEADER_SIZE {
            self.done = true;
            return Ok(());
        }
        self.position = read_u64(page, 0);
        let ghost before = self.files();
        let ghost room = (self.limit - self.samples@.len()) as nat;
        let ghost whole = page_files(page@, USN_PAGE_HEADER_SIZE as int, room);
        let mut at: usize = USN_PAGE_HEADER_SIZE;
        while at < page.len() && self.samples.len() < self.limit
            invariant
                at <= page.len(),
                self.valid(),
                self.limit == old(self).limit,
                self.done == old(self).done,
                self.position == bytes::le64(page@, 0),
                USN_PAGE_HEADER_SIZE <= page.len(),
                before == old(self).files(),
                whole == page_files(
                    page@,
                    USN_PAGE_HEADER_SIZE as int,
                    (self.limit - before.len()) as nat,
                ),
                ({
                    let left = page_files(
                        page@,
                        at as int,
                        (self.limit - self.samples@.len()) as nat,
                    );
                    before + whole.0 == self.files() + left.0 && whole.1 == left.1
                }),
            ensures
                self.valid(),
                self.limit == old(self).limit,
                self.done == old(self).done,
                self.position == bytes::le64(page@, 0),
                before + whole.0 == self.files(),
                whole.1 is None,
            decreases page.len() - at,
        {
            let ghost files = self.files();
            assert(files + Seq::<Record>::empty() =~= files);
            match read_step(page, at) {
                Read::End => {
                    break;
                },
                Read::Fault(error) => {
                    self.done = true;
                    return Err(error);
                },
                Read::Skip(length) => {
                    at += length;
                },
                Read::Found(record, length) => {
                    if record.attributes & FILE_ATTRIBUTE_DIRECTORY == 0 {
                        let ghost rest = page_files(
                            page@,
                            at + length,
                            (self.limit - self.samples@.len() - 1) as nat,
                        );
                        self.samples.push(record);
                        proof {
                            assert(self.files() =~= files.push(record@));
                            assert(files + (seq![record@] + rest.0) =~= files.push(record@)
                                + rest.0);
                        }
                    }
                    at += length;
                },
            }
            proof {
                assert(self.files() + Seq::<Record>::empty() =~= self.files());
            }
        }
        Ok(())
    }

    /// Takes a refusal in place of an answer. Some error codes say that there
    /// is nothing more; the others are errors.
    pub fn take_failure(&mut self, code: Option<i32>) -> (outcome: Result<(), NtfsError>)
        requires
            old(self).valid(),
        ensures
            final(self).valid(),
            final(self).finished(),
            final(self).files() == old(self).files(),
            final(self).wanted() == old(self).wanted(),
            final(self).start() == old(self).start(),
            outcome is Ok <==> at_end(code),
            outcome matches Err(error) ==> error == (NtfsError::System { code }),
    {
        self.done = true;
        if is_at_end(code) {
            Ok(())
        } else {
            Err(NtfsError::System { code })
        }
    }

    /// The files that were found.
    pub fn into_samples(self) -> (samples: Vec<NtfsRecordSample>)
        ensures
            record_views(samples@) == self.files(),
    {
        self.samples
    }
}

/// Begins the search for the first `limit` files of the volume that `path` is
/// on.
pub fn collect_file_samples_for_path(
    path: &str,
    eligibility: &NtfsEligibility,
    limit: usize,
) -> (begun: Result<SampleCollection, NtfsError>)
    ensures
        begun is Ok <==> eligibility.ntfs(),
        begun matches Err(error) ==> refused(error, path@, *eligibility),
        begun matches Ok(run) ==> {
            &&& run.valid()
            &&& run.files() == Seq::<Record>::empty()
            &&& run.wanted() == limit
            &&& !run.finished()
            &&& run.start() == 0
        },
{
    match eligibility.require_ntfs(path) {
        Err(error) => Err(error),
        Ok(_) => {
            let run = SampleCollection { samples: Vec::new(), limit, position: 0, done: false };
            assert(run.files() =~= Seq::<Record>::empty());
            Ok(run)
        },
    }
}

/// The id by which a file is opened. Only short ids that fit a signed number
/// can be.
pub fn open_request(sample: &NtfsRecordSample) -> (id: Result<i64, NtfsError>)
    ensures
        id is Ok <==> sample.major_version == 2 && sample.file_id <= i64::MAX,
        id matches Ok(id) ==> id == sample.file_id,
        id matches Err(error) ==> error == (if sample.major_version != 2 {
            NtfsError::OpenNeedsV2 { version: sample.major_version }
        } else {
            NtfsError::LargeId { id: sample.file_id }
        }),
{
    if sample.major_version != 2 {
        return Err(NtfsError::OpenNeedsV2 { version: sample.major_version });
    }
    if sample.file_id > i64::MAX as u128 {
        return Err(NtfsError::LargeId { id: sample.file_id });
    }
    Ok(sample.file_id as i64)
}

/// Whether a file can be opened by its id.
pub open spec fn can_open(record: Record) -> bool {
    record.major_version == 2 && record.file_id <= i64::MAX
}

/// The number of the file record of a file: the low 48 bits of its id.
pub fn file_record_request(sample: &NtfsRecordSample) -> (id: Result<i64, NtfsError>)
    ensures
        id is Ok <==> sample.major_version == 2,
        id matches Ok(id) ==> id == sample.file_id % 0x1_0000_0000_0000,
        id matches Err(error) ==> error == (NtfsError::RecordNeedsV2 {
            version: sample.major_version,
        }),
{
    if sample.major_version != 2 {
        return Err(NtfsError::RecordNeedsV2 { version: sample.major_version });
    }
    let id: u128 = sample.file_id;
    assert(id & 0x0000_FFFF_FFFF_FFFF == id % 0x1_0000_0000_0000) by (bit_vector);
    Ok((id & 0x0000_FFFF_FFFF_FFFF) as i64)
}

/// What a file's record says of its data.
#[derive(Clone, Copy, Debug, PartialEq, Eq, Structural)]
pub struct FileRecordSizeSample {
    pub logical_size: u64,
    pub allocated_size: u64,
    pub resident_data: bool,
}

/// The least multiple of `alignment` that is not below `value`.
pub open spec fn aligned(value: nat, alignment: nat) -> nat {
    if alignment == 0 {
        value
    } else {
        ((value + alignment - 1) as nat / alignment) * alignment
    }
}

/// The value is brought up to a multiple of the alignment, by less than one
/// alignment.
pub proof fn lemma_aligned(value: nat, alignment: nat)
    requires
        alignment > 0,
    ensures
        aligned(value, alignment) % alignment == 0,
        value <= aligned(value, alignment) < value + alignment,
{
    let n = (value + alignment - 1) as nat;
    vstd::arithmetic::div_mod::lemma_fundamental_div_mod(n as int, alignment as int);
    vstd::arithmetic::div_mod::lemma_mod_bound(n as int, alignment as int);
    vstd::arithmetic::div_mod::lemma_mod_multiples_basic(
        (n / alignment) as int,
        alignment as int,
    );
    assert((n / alignment) * alignment == alignment * (n / alignment)) by (nonlinear_arith);
}

pub fn align_up(value: u64, alignment: u64) -> (up: u64)
    requires
        value + alignment <= u64::MAX,
    ensures
        up == aligned(value as nat, alignment as nat),
{
    if alignment == 0 {
        value
    } else {
        proof {
            lemma_aligned(value as nat, alignment as nat);
        }
        ((value + alignment - 1) / alignment) * alignment
    }
}

/// The sizes in the default data attribute of a file record, from the
/// attribute at `at` on.
pub open spec fn data_sizes(record: Seq<u8>, at: int) -> Result<FileRecordSizeSample, ParseError>
    decreases record.len() - at,
{
    let kind = bytes::le32(record, at);
    let length = bytes::le32(record, at + 4);
    if at + 8 > record.len() || kind == ATTR_TYPE_END {
        Err(ParseError::NoDataAttribute)
    } else if length < 0x18 || at + length > record.len() {
        Err(ParseError::AttributeLength)
    } else if kind == ATTR_TYPE_DATA && record[at + 9] == 0 {
        if record[at + 8] == 0 {
            Ok(
                FileRecordSizeSample {
                    logical_size: bytes::le32(record, at + 0x10) as u64,
                    allocated_size: aligned(bytes::le32(record, at + 0x10), 8) as u64,
                    resident_data: true,
                },
            )
        } else if length < 0x48 {
            Err(ParseError::ShortDataAttribute)
        } else {
            Ok(
                FileRecordSizeSample {
                    logical_size: bytes::le64(record, at + 0x30) as u64,
                    allocated_size: bytes::le64(record, at + 0x28) as u64,
                    resident_data: false,
                },
            )
        }
    } else {
        data_sizes(record, at + length)
    }
}

/// Whether a file record has its signature.
pub open spec fn signed(record: Seq<u8>) -> bool {
    record[0] == 70 && record[1] == 73 && record[2] == 76 && record[3] == 69
}

/// The sizes of the data of a file, from its record.
pub open spec fn record_sizes(record: Seq<u8>) -> Result<FileRecordSizeSample, ParseError> {
    if record.len() < FILE_RECORD_HEADER_SIZE {
        Err(ParseError::ShortFileRecordHeader)
    } else if !signed(record) {
        Err(ParseError::Signature)
    } else {
        data_sizes(record, bytes::le16(record, FILE_RECORD_ATTR_OFFSET as int) as int)
    }
}

pub fn parse_data_attribute_sizes(record: &[u8]) -> (sizes: Result<
    FileRecordSizeSample,
    ParseError,
>)
    ensures
        sizes == record_sizes(record@),
{
    if record.len() < FILE_RECORD_HEADER_SIZE {
        return Err(ParseError::ShortFileRecordHeader);
    }
    if !(record[0] == 70 && record[1] == 73 && record[2] == 76 && record[3] == 69) {
        return Err(ParseError::Signature);
    }
    let mut at: usize = read_u16(record, FILE_RECORD_ATTR_OFFSET) as usize;
    while at <= record.len() && record.len() - at >= 8
        invariant
            record_sizes(record@) == data_sizes(record@, at as int),
        decreases record.len() - at,
    {
        let kind: u32 = read_u32(record, at);
        if kind == ATTR_TYPE_END {
            return Err(ParseError::NoDataAttribute);
        }
        let length: usize = read_u32(record, at + 4) as usize;
        if length < 0x18 || length > record.len() - at {
            return Err(ParseError::AttributeLength);
        }
        if kind == ATTR_TYPE_DATA && record[at + 9] == 0 {
            if record[at + 8] == 0 {
                let logical_size: u64 = read_u32(record, at + 0x10) as u64;
                proof {
                    lemma_aligned(logical_size as nat, 8);
                }
                let allocated_size: u64 = align_up(logical_size, 8);
                return Ok(FileRecordSizeSample { logical_size, allocated_size, resident_data: true });
            }
            if length < 0x48 {
                return Err(ParseError::ShortDataAttribute);
            }
            let allocated_size: u64 = read_u64(record, at + 0x28);
            let logical_size: u64 = read_u64(record, at + 0x30);
            return Ok(FileRecordSizeSample { logical_size, allocated_size, resident_data: false });
        }
        at += length;
    }
    Err(ParseError::NoDataAttribute)
}

/// What an answer with a file record says of the data, or why it cannot be
/// read.
pub open spec fn answered(answer: Seq<u8>) -> Result<FileRecordSizeSample, NtfsError> {
    let length = bytes::le32(answer, 8);
    if answer.len() < FILE_RECORD_OUTPUT_HEADER_SIZE {
        Err(NtfsError::Parse(ParseError::ShortFileRecord))
    } else if length == 0 || FILE_RECORD_OUTPUT_HEADER_SIZE + length > answer.len() {
        Err(NtfsError::RecordLength { length: length as u32, returned: answer.len() as usize })
    } else {
        match record_sizes(answer.subrange(12, 12int + length)) {
            Ok(sizes) => Ok(sizes),
            Err(error) => Err(NtfsError::Parse(error)),
        }
    }
}

/// The sizes of the data of a file, from the answer to the request for its
/// record.
pub fn query_size_from_file_record_for_sample(
    sample: &NtfsRecordSample,
    answer: Result<&[u8], Option<i32>>,
) -> (sizes: Result<FileRecordSizeSample, NtfsError>)
    ensures
        sizes == (if sample.major_version != 2 {
            Err(NtfsError::RecordNeedsV2 { version: sample.major_version })
        } else {
            match answer {
                Err(code) => Err(NtfsError::System { code }),
                Ok(answer) => answered(answer@),
            }
        }),
{
    if let Err(error) = file_record_request(sample) {
        return Err(error);
    }
    let answer = match answer {
        Err(code) => {
            return Err(NtfsError::System { code });
        },
        Ok(answer) => answer,
    };
    if answer.len() < FILE_RECORD_OUTPUT_HEADER_SIZE {
        return Err(NtfsError::Parse(ParseError::ShortFileRecord));
    }
    let length: u32 = read_u32(answer, 8);
    if length == 0 || length as usize > answer.len() - FILE_RECORD_OUTPUT_HEADER_SIZE {
        return Err(NtfsError::RecordLength { length, returned: answer.len() });
    }
    let record = vstd::slice::slice_subrange(answer, 12, 12 + length as usize);
    match parse_data_attribute_sizes(record) {
        Ok(sizes) => Ok(sizes),
        Err(error) => Err(NtfsError::Parse(error)),
    }
}

/// What one answer in a list says: nothing where the record was refused or
/// could not be read.
pub open spec fn known_sizes(sample: Record, answer: Option<Vec<u8>>) -> Option<
    FileRecordSizeSample,
> {
    match answer {
        Some(answer) if sample.major_version == 2 => match answered(answer@) {
            Ok(sizes) => Some(sizes),
            Err(_) => None,
        },
        _ => None,
    }
}

/// The sizes of the data of the files on the volume that `path` is on, from
/// the answers to the requests for their records.
pub fn query_sizes_from_file_records_for_samples(
    path: &str,
    eligibility: &NtfsEligibility,
    samples: &Vec<NtfsRecordSample>,
    answers: &Vec<Option<Vec<u8>>>,
) -> (sizes: Result<Vec<Option<FileRecordSizeSample>>, NtfsError>)
    requires
        answers@.len() == samples@.len(),
    ensures
        sizes is Ok <==> eligibility.ntfs(),
        sizes matches Err(error) ==> refused(error, path@, *eligibility),
        sizes matches Ok(sizes) ==> sizes@ == Seq::new(
            samples@.len(),
            |i: int| known_sizes(samples@[i]@, answers@[i]),
        ),
{
    if let Err(error) = eligibility.require_ntfs(path) {
        return Err(error);
    }
    let mut sizes: Vec<Option<FileRecordSizeSample>> = Vec::new();
    let mut i: usize = 0;
    while i < samples.len()
        invariant
            i <= samples@.len(),
            answers@.len() == samples@.len(),
            sizes@ == Seq::new(i as nat, |k: int| known_sizes(samples@[k]@, answers@[k])),
        decreases samples@.len() - i,
    {
        let found = match &answers[i] {
            None => None,
            Some(answer) => match query_size_from_file_record_for_sample(
                &samples[i],
                Ok(answer.as_slice()),
            ) {
                Ok(sizes) => Some(sizes),
                Err(_) => None,
            },
        };
        sizes.push(found);
        i += 1;
        assert(sizes@ =~= Seq::new(i as nat, |k: int| known_sizes(samples@[k]@, answers@[k])));
    }
    Ok(sizes)
}

/// A file with the sizes that it was opened for.
pub struct OpenByIdSizeSample {
    pub sample: NtfsRecordSample,
    pub logical_size: u64,
    pub allocated_size: u64,
    pub links: u32,
}

/// A file with its sizes, as a mathematical value.
pub struct Opened {
    pub record: Record,
    pub logical_size: u64,
    pub allocated_size: u64,
    pub links: u32,
}

impl View for OpenByIdSizeSample {
    type V = Opened;

    open spec fn view(&self) -> Opened {
        Opened {
            record: self.sample@,
            logical_size: self.logical_size,
            allocated_size: self.allocated_size,
            links: self.links,
        }
    }
}

/// Files with their sizes, as mathematical values.
pub open spec fn opened_views(files: Seq<OpenByIdSizeSample>) -> Seq<Opened> {
    files.map_values(|file: OpenByIdSizeSample| file@)
}

/// Those of the first `n` files that could be opened by their ids, each with what was
/// found: its size, what it takes on disk and how many names it has.
pub open spec fn opened_files(
    samples: Seq<Record>,
    found: Seq<Option<(u64, u64, u32)>>,
    n: nat,
) -> Seq<Opened>
    decreases n,
{
    if n == 0 {
        Seq::empty()
    } else {
        let before = opened_files(samples, found, (n - 1) as nat);
        match found[n - 1] {
            Some((logical_size, allocated_size, links)) if can_open(samples[n - 1]) => before.push(
                Opened { record: samples[n - 1], logical_size, allocated_size, links },
            ),
            _ => before,
        }
    }
}

/// The files on the volume that `path` is on with their sizes, without those
/// that could not be opened.
pub fn query_sizes_open_by_id_for_path(
    path: &str,
    eligibility: &NtfsEligibility,
    samples: &Vec<NtfsRecordSample>,
    found: &Vec<Option<(u64, u64, u32)>>,
) -> (files: Result<Vec<OpenByIdSizeSample>, NtfsError>)
    requires
        found@.len() == samples@.len(),
    ensures
        files is Ok <==> eligibility.ntfs(),
        files matches Err(error) ==> refused(error, path@, *eligibility),
        files matches Ok(files) ==> opened_views(files@) == opened_files(
            record_views(samples@),
            found@,
            samples@.len(),
        ),
{
    if let Err(error) = eligibility.require_ntfs(path) {
        return Err(error);
    }
    let mut files: Vec<OpenByIdSizeSample> = Vec::new();
    let mut i: usize = 0;
    assert(opened_views(files@) =~= Seq::<Opened>::empty());
    while i < samples.len()
        invariant
            i <= samples@.len(),
            found@.len() == samples@.len(),
            opened_views(files@) == opened_files(record_views(samples@), found@, i as nat),
        decreases samples@.len() - i,
    {
        let ghost before = opened_views(files@);
        let can = open_request(&samples[i]).is_ok();
        assert(record_views(samples@)[i as int] == samples@[i as int]@);
        if let (true, Some((logical_size, allocated_size, links))) = (can, found[i]) {
            files.push(
                OpenByIdSizeSample {
                    sample: samples[i].clone(),
                    logical_size,
                    allocated_size,
                    links,
                },
            );
            proof {
                assert(opened_views(files@) =~= before.push(files@.last()@));
            }
        }
        i += 1;
    }
    Ok(files)
}

/// The sizes of the first `n` files together, and what they take on disk.
pub open spec fn sizes_of(files: Seq<Opened>, n: nat) -> (nat, nat)
    decreases n,
{
    if n == 0 {
        (0, 0)
    } else {
        let before = sizes_of(files, (n - 1) as nat);
        (
            before.0 + files[n - 1].logical_size as nat,
            before.1 + files[n - 1].allocated_size as nat,
        )
    }
}

proof fn lemma_sizes_grow(files: Seq<Opened>, n: nat, m: nat)
    requires
        n <= m,
    ensures
        sizes_of(files, n).0 <= sizes_of(files, m).0,
        sizes_of(files, n).1 <= sizes_of(files, m).1,
    decreases m,
{
    if n < m {
        lemma_sizes_grow(files, n, (m - 1) as nat);
    }
}

/// The sizes of files together, and what they take on disk; None where either does
/// not fit.
pub fn total_sizes(files: &Vec<OpenByIdSizeSample>) -> (total: Option<(u64, u64)>)
    ensures
        ({
            let sums = sizes_of(opened_views(files@), files@.len());
            total == if sums.0 <= u64::MAX && sums.1 <= u64::MAX {
                Some((sums.0 as u64, sums.1 as u64))
            } else {
                None
            }
        }),
{
    let ghost all = opened_views(files@);
    let mut logical: u64 = 0;
    let mut allocated: u64 = 0;
    let mut i: usize = 0;
    while i < files.len()
        invariant
            i <= files@.len(),
            all == opened_views(files@),
            (logical as nat, allocated as nat) == sizes_of(all, i as nat),
        decreases files@.len() - i,
    {
        proof {
            assert(all[i as int] == files@[i as int]@);
            lemma_sizes_grow(all, (i + 1) as nat, files@.len());
        }
        let file = &files[i];
        if file.logical_size > u64::MAX - logical || file.allocated_size > u64::MAX - allocated {
            return None;
        }
        logical += file.logical_size;
        allocated += file.allocated_size;
        i += 1;
    }
    Some((logical, allocated))
}

/// The path that was found for a file, without the verbatim prefix. There is none for
/// a file that cannot be opened by its id.
pub open spec fn plain_path(record: Record, found: Option<Vec<u16>>) -> Option<Seq<char>> {
    match found {
        Some(units) if can_open(record) => Some(wide::simplified(bytes::utf16_text(units@))),
        _ => None,
    }
}

/// Paths that may be missing, as mathematical values.
pub open spec fn optional_views(paths: Seq<Option<String>>) -> Seq<Option<Seq<char>>> {
    paths.map_values(
        |path: Option<String>|
            match path {
                Some(path) => Some(path@),
                None => None,
            },
    )
}

/// The paths of files on the volume that `path` is on, from the names that the
/// system gave for them.
pub fn resolve_paths_open_by_id_for_samples(
    path: &str,
    eligibility: &NtfsEligibility,
    samples: &Vec<NtfsRecordSample>,
    found: &Vec<Option<Vec<u16>>>,
) -> (paths: Result<Vec<Option<String>>, NtfsError>)
    requires
        found@.len() == samples@.len(),
    ensures
        paths is Ok <==> eligibility.ntfs(),
        paths matches Err(error) ==> refused(error, path@, *eligibility),
        paths matches Ok(paths) ==> optional_views(paths@) == Seq::new(
            samples@.len(),
            |i: int| plain_path(samples@[i]@, found@[i]),
        ),
{
    if let Err(error) = eligibility.require_ntfs(path) {
        return Err(error);
    }
    let mut paths: Vec<Option<String>> = Vec::new();
    let mut i: usize = 0;
    while i < samples.len()
        invariant
            i <= samples@.len(),
            found@.len() == samples@.len(),
            optional_views(paths@) == Seq::new(
                i as nat,
                |k: int| plain_path(samples@[k]@, found@[k]),
            ),
        decreases samples@.len() - i,
    {
        let resolved = match (open_request(&samples[i]), &found[i]) {
            (Ok(_), Some(units)) => Some(
                strip_verbatim_prefix(decode_utf16(units.as_slice()).as_str()),
            ),
            _ => None,
        };
        let ghost before = optional_views(paths@);
        let ghost plain = plain_path(samples@[i as int]@, found@[i as int]);
        paths.push(resolved);
        i += 1;
        assert(optional_views(paths@) =~= before.push(plain));
        assert(optional_views(paths@) =~= Seq::new(
            i as nat,
            |k: int| plain_path(samples@[k]@, found@[k]),
        ));
    }
    Ok(paths)
}

/// What to do once a buffer was offered for a name.
#[derive(Clone, Copy, Debug, PartialEq, Eq, Structural)]
pub enum NameBuffer {
    /// The system refused.
    Refused,
    /// The name is in the buffer, this many units long.
    Filled(usize),
    /// The buffer is too small; offer one of this size.
    Grow(usize),
}

/// What to do after the system told the length of a name for a buffer of
/// `capacity` units.
pub fn name_buffer(length: u32, capacity: usize) -> (next: NameBuffer)
    requires
        length < u32::MAX,
    ensures
        next == (if length == 0 {
            NameBuffer::Refused
        } else if length < capacity {
            NameBuffer::Filled(length as usize)
        } else {
            NameBuffer::Grow((length + 1) as usize)
        }),
{
    if length == 0 {
        NameBuffer::Refused
    } else if (length as usize) < capacity {
        NameBuffer::Filled(length as usize)
    } else {
        NameBuffer::Grow(length as usize + 1)
    }
}

/// Every record is either a file or a directory, and no counter is above the
/// number of records.
pub proof fn lemma_summary_adds_up(summary: NtfsEnumSummary, records: Seq<Record>)
    requires
        summarizes(summary, records),
    ensures
        summary.files + summary.directories == summary.total_records,
        summary.hidden <= summary.total_records,
        summary.reparse_points <= summary.total_records,
        summary.samples@.len() <= SAMPLE_LIMIT,
{
    lemma_tallies(records);
    assert(record_views(summary.samples@).len() == summary.samples@.len());
}

/// A page never brings in more records than there is room for.
pub proof fn lemma_page_within_room(page: Seq<u8>, at: int, room: nat)
    ensures
        page_records(page, at, room).0.len() <= room,
        page_files(page, at, room).0.len() <= room,
    decreases page.len() - at,
{
    if at < page.len() && room > 0 {
        match step(page, at) {
            Step::Skip(length) => {
                lemma_page_within_room(page, at + length, room);
            },
            Step::Found(record, length) => {
                lemma_page_within_room(page, at + length, (room - 1) as nat);
                lemma_page_within_room(page, at + length, room);
            },
            _ => {},
        }
    }
}

/// A summary counts a record exactly once where it has the attribute, or the version, that
/// is counted.
pub proof fn lemma_tally_counts(records: Seq<Record>, mask: u32, version: u16)
    ensures
        tally(records, mask) == records.filter(|r: Record| r.attributes & mask != 0).len(),
        tally_version(records, version) == records.filter(
            |r: Record| r.major_version == version,
        ).len(),
    decreases records.len(),
{
    reveal(Seq::filter);
    if records.len() > 0 {
        lemma_tally_counts(records.drop_last(), mask, version);
    }
}

/// No name is longer than the longest, and one is as long.
pub proof fn lemma_longest_name(records: Seq<Record>)
    ensures
        forall|i: int|
            0 <= i < records.len() ==> vstd::utf8::encode_utf8((#[trigger] records[i]).name).len()
                <= longest_name(records),
        records.len() > 0 ==> exists|i: int|
            0 <= i < records.len() && vstd::utf8::encode_utf8((#[trigger] records[i]).name).len()
                == longest_name(records),
    decreases records.len(),
{
    if records.len() > 0 {
        let front = records.drop_last();
        let n = records.len() - 1;
        lemma_longest_name(front);
        assert(records[n] == records.last());
        assert forall|i: int| 0 <= i < records.len() implies vstd::utf8::encode_utf8(
            (#[trigger] records[i]).name,
        ).len() <= longest_name(records) by {
            if i < n {
                assert(front[i] == records[i]);
            }
        }
        if longest_name(records) != vstd::utf8::encode_utf8(records[n].name).len() {
            let i = choose|i: int|
                0 <= i < front.len() && vstd::utf8::encode_utf8((#[trigger] front[i]).name).len()
                    == longest_name(front);
            assert(records[i] == front[i]);
        }
    }
}

/// Of a page only files are collected, no more than there is room for.
pub proof fn lemma_page_files(page: Seq<u8>, at: int, room: nat)
    ensures
        page_files(page, at, room).0.len() <= room,
        forall|i: int|
            0 <= i < page_files(page, at, room).0.len() ==> (#[trigger] page_files(
                page,
                at,
                room,
            ).0[i]).attributes & 0x10u32 == 0,
    decreases page.len() - at,
{
    if at < page.len() && room > 0 {
        match step(page, at) {
            Step::Skip(length) => {
                lemma_page_files(page, at + length, room);
            },
            Step::Found(record, length) => {
                lemma_page_files(page, at + length, room);
                lemma_page_files(page, at + length, (room - 1) as nat);
                let (all, _) = page_files(page, at, room);
                let (rest, _) = page_files(page, at + length, (room - 1) as nat);
                if !is_directory(record) {
                    assert forall|i: int| 0 <= i < all.len() implies (#[trigger] all[i]).attributes
                        & 0x10u32 == 0 by {
                        if i > 0 {
                            assert(all[i] == rest[i - 1]);
                        }
                    }
                }
            },
            _ => {},
        }
    }
}

/// A record is read from its own bytes: the id of the file before that of its directory,
/// then its attributes, and its name where it says that it stands. A long record has long
/// ids.
pub proof fn lemma_record_read(record: Seq<u8>)
    ensures
        v2_record(record) is Ok ==> {
            let read = v2_record(record)->Ok_0;
            &&& record.len() >= 64
            &&& read.file_id == bytes::le64(record, 8)
            &&& read.parent_file_id == bytes::le64(record, 16)
            &&& read.attributes == bytes::le32(record, 52)
            &&& read.name == bytes::utf16_text(
                bytes::units_at(
                    record,
                    bytes::le16(record, 58) as int,
                    bytes::le16(record, 56) / 2,
                ),
            )
            &&& bytes::le16(record, 58) + bytes::le16(record, 56) <= record.len()
        },
        v3_record(record) is Ok ==> {
            let read = v3_record(record)->Ok_0;
            &&& record.len() >= 80
            &&& read.file_id == bytes::le128(record, 8)
            &&& read.parent_file_id == bytes::le128(record, 24)
            &&& read.attributes == bytes::le32(record, 68)
            &&& read.name == bytes::utf16_text(
                bytes::units_at(
                    record,
                    bytes::le16(record, 74) as int,
                    bytes::le16(record, 72) / 2,
                ),
            )
            &&& bytes::le16(record, 74) + bytes::le16(record, 72) <= record.len()
        },
{
}

/// Data that lies in the file record itself takes as much as it has, brought up to eight
/// bytes; a record without its signature says nothing.
pub proof fn lemma_sizes_read(record: Seq<u8>)
    ensures
        record_sizes(record) is Ok ==> {
            let sizes = record_sizes(record)->Ok_0;
            &&& record[0] == 'F' as u8 && record[1] == 'I' as u8 && record[2] == 'L' as u8
                && record[3] == 'E' as u8
            &&& sizes.resident_data ==> sizes.logical_size <= sizes.allocated_size
                < sizes.logical_size + 8 && sizes.allocated_size % 8 == 0
        },
{
    if record_sizes(record) is Ok {
        lemma_resident(record, bytes::le16(record, 0x14) as int);
    }
}

proof fn lemma_resident(record: Seq<u8>, at: int)
    requires
        data_sizes(record, at) is Ok,
    ensures
        ({
            let sizes = data_sizes(record, at)->Ok_0;
            sizes.resident_data ==> sizes.logical_size <= sizes.allocated_size
                < sizes.logical_size + 8 && sizes.allocated_size % 8 == 0
        }),
    decreases record.len() - at,
{
    let kind = bytes::le32(record, at);
    let length = bytes::le32(record, at + 4);
    if kind == ATTR_TYPE_DATA && record[at + 9] == 0 {
        lemma_aligned(bytes::le32(record, at + 0x10), 8);
        assert(bytes::le32(record, at + 0x10) <= u32::MAX);
    } else {
        lemma_resident(record, at + length);
    }
}

/// The sizes of files add up.
pub proof fn lemma_sizes_add_up(files: Seq<Opened>, file: Opened)
    ensures
        sizes_of(files.push(file), files.len() + 1) == (
            sizes_of(files, files.len()).0 + file.logical_size as nat,
            sizes_of(files, files.len()).1 + file.allocated_size as nat,
        ),
        sizes_of(Seq::empty(), 0) == (0nat, 0nat),
{
    lemma_first_sizes(files, file, files.len());
}

proof fn lemma_first_sizes(files: Seq<Opened>, file: Opened, n: nat)
    requires
        n <= files.len(),
    ensures
        sizes_of(files.push(file), n) == sizes_of(files, n),
    decreases n,
{
    if n > 0 {
        lemma_first_sizes(files, file, (n - 1) as nat);
    }
}

/// Those files are listed that have a short id and could be opened, each with what was
/// found.
pub proof fn lemma_opened_files(
    samples: Seq<Record>,
    found: Seq<Option<(u64, u64, u32)>>,
    n: nat,
    k: int,
)
    requires
        n <= samples.len(),
        n <= found.len(),
        0 <= k < n,
    ensures
        opened_files(samples, found, n).len() <= n,
        samples[k].major_version == 2 && samples[k].file_id <= i64::MAX && found[k] is Some
            ==> exists|i: int|
            0 <= i < opened_files(samples, found, n).len() && (#[trigger] opened_files(
                samples,
                found,
                n,
            )[i]).record == samples[k] && Some(
                (
                    opened_files(samples, found, n)[i].logical_size,
                    opened_files(samples, found, n)[i].allocated_size,
                    opened_files(samples, found, n)[i].links,
                ),
            ) == found[k],
    decreases n,
{
    let less = (n - 1) as nat;
    let before = opened_files(samples, found, less);
    let all = opened_files(samples, found, n);
    if less > 0 {
        lemma_opened_files(
            samples,
            found,
            less,
            if k < less {
                k
            } else {
                0
            },
        );
    }
    if samples[k].major_version == 2 && samples[k].file_id <= i64::MAX && found[k] is Some {
        if k < less {
            let i = choose|i: int|
                0 <= i < before.len() && (#[trigger] before[i]).record == samples[k] && Some(
                    (before[i].logical_size, before[i].allocated_size, before[i].links),
                ) == found[k];
            assert(all[i] == before[i]);
        } else {
            assert(all[before.len() as int].record == samples[k]);
        }
    }
}

/// An enumeration is over where the system says that there is nothing more.
pub proof fn lemma_at_end(code: i32)
    ensures
        at_end(Some(code)) <==> code == 38 || code == 18 || code == 1179,
        !at_end(None),
{
}

/// A volume is read by its records exactly where it is an NTFS volume, in whatever case
/// that is written, on a fixed disk, and could be opened; more rights are needed exactly
/// where access to it was denied.
pub proof fn lemma_eligible(volume: &NtfsEligibility, yes: bool, denied: bool)
    requires
        call_ensures(NtfsEligibility::is_eligible, (volume,), yes),
        call_ensures(NtfsEligibility::needs_elevation, (volume,), denied),
    ensures
        yes <==> text::all_alike(volume.filesystem_name@, "NTFS"@) && volume.drive_type == 3
            && volume.can_open_volume,
        denied <==> volume.open_error == Some(5i32),
{
    text::lemma_alike(volume.filesystem_name@, "NTFS"@);
}

/// A file is opened by the whole of its id, and its record is asked for by the low
/// forty-eight bits of it; ids of another kind are refused both.
pub proof fn lemma_requests(
    sample: &NtfsRecordSample,
    open: Result<i64, NtfsError>,
    record: Result<i64, NtfsError>,
)
    requires
        call_ensures(open_request, (sample,), open),
        call_ensures(file_record_request, (sample,), record),
    ensures
        sample.major_version != 2 ==> open is Err && record is Err,
        open matches Ok(id) ==> id == sample.file_id && record is Ok,
        record matches Ok(id) ==> 0 <= id < 0x1_0000_0000_0000 && (sample.file_id - id) % (
        0x1_0000_0000_0000int) == 0,
        sample.major_version == 2 && sample.file_id < 0x1_0000_0000_0000 ==> open is Ok && open
            == record,
{
}

/// What the volume is not made for is unsupported, what it holds no data for is not found,
/// and what ends too early is an unexpected end.
pub proof fn lemma_error_kinds(error: NtfsError, parse: ParseError)
    ensures
        error is AccessDenied ==> error.sort() == ErrorKind::PermissionDenied,
        error is NotNtfs || error is UnsupportedRoot || error is OpenNeedsV2
            || error is RecordNeedsV2 ==> error.sort() == ErrorKind::Unsupported,
        error is RecordLength ==> error.sort() == ErrorKind::UnexpectedEof,
        error == NtfsError::Parse(parse) ==> error.sort() == parse.sort(),
        parse.sort() == ErrorKind::NotFound <==> parse is NoDataAttribute,
        parse.sort() == ErrorKind::UnexpectedEof <==> text::has_prefix(parse.wording(), "short "@)
            && !(parse is ShortDataAttribute),
{
    reveal_strlit("short ");
    reveal_strlit("short USN record header");
    reveal_strlit("short USN_RECORD_V2");
    reveal_strlit("short USN_RECORD_V3");
    reveal_strlit("invalid USN filename range");
    reveal_strlit("short NTFS volume data response");
    reveal_strlit("short NTFS file record response");
    reveal_strlit("short NTFS file record header");
    reveal_strlit("invalid NTFS file record signature");
    reveal_strlit("invalid NTFS attribute length");
    reveal_strlit("short nonresident NTFS data attribute");
    reveal_strlit("default NTFS data attribute not found");
    let words = parse.wording();
    assert(words.take(6)[0] == words[0]);
    if words[0] == 's' && !(parse is ShortDataAttribute) {
        assert(words.take(6) =~= "short "@);
    }
}

/// A buffer that was too short for a name is long enough for it once it has grown.
pub proof fn lemma_buffer_grows(length: u32, capacity: usize, next: NameBuffer, then: NameBuffer)
    requires
        length < u32::MAX,
        call_ensures(name_buffer, (length, capacity), next),
        next matches NameBuffer::Grow(room) ==> call_ensures(name_buffer, (length, room), then),
    ensures
        next is Refused <==> length == 0,
        next matches NameBuffer::Filled(units) ==> units == length && units < capacity,
        next matches NameBuffer::Grow(room) ==> room > capacity && then == NameBuffer::Filled(
            length as usize,
        ),
{
}

/// What is found out of a volume decides: it is read by its records exactly where its file
/// system is NTFS, its drive is fixed and it was opened.
pub proof fn lemma_found_out(
    path: &str,
    volume_root: &str,
    filesystem_name: &str,
    drive_type: u32,
    opened: Result<(), Option<i32>>,
    known: Result<NtfsEligibility, NtfsError>,
    yes: bool,
    denied: bool,
)
    requires
        call_ensures(
            ntfs_eligibility,
            (path, volume_root, filesystem_name, drive_type, opened),
            known,
        ),
        known is Ok,
        call_ensures(NtfsEligibility::is_eligible, (&known->Ok_0,), yes),
        call_ensures(NtfsEligibility::needs_elevation, (&known->Ok_0,), denied),
    ensures
        yes <==> text::all_alike(filesystem_name@, "NTFS"@) && drive_type == 3 && opened is Ok,
        denied <==> opened == Err::<(), Option<i32>>(Some(5i32)),
        known->Ok_0.original_path@ == path@,
        known->Ok_0.volume_root@ == volume_root@,
{
    text::lemma_alike(filesystem_name@, "NTFS"@);
}

/// The sizes of data that stands outside the record are written in it: the length at its
/// place behind the allocated size. Attributes of other kinds, and named ones, are passed
/// over, and without data there is an error.
pub proof fn lemma_sizes_outside(record: Seq<u8>, at: int)
    requires
        0 <= at,
        at + 16 <= record.len(),
    ensures
        ({
            let kind = bytes::le32(record, at);
            let length = bytes::le32(record, at + 4);
            let whole = length >= 24 && at + length <= record.len();
            &&& kind == 0xFFFF_FFFF ==> data_sizes(record, at) is Err
            &&& whole && kind == 0x80 && record[at + 9] == 0 && record[at + 8] != 0 && length >= 72
                ==> {
                let sizes = data_sizes(record, at);
                &&& sizes is Ok
                &&& sizes->Ok_0.allocated_size == bytes::le64(record, at + 40)
                &&& sizes->Ok_0.logical_size == bytes::le64(record, at + 48)
                &&& !sizes->Ok_0.resident_data
            }
            &&& whole && kind == 0x80 && record[at + 9] == 0 && record[at + 8] == 0 ==> {
                let sizes = data_sizes(record, at);
                &&& sizes is Ok
                &&& sizes->Ok_0.logical_size == bytes::le32(record, at + 16)
                &&& sizes->Ok_0.resident_data
            }
            &&& whole && kind != 0xFFFF_FFFF && (kind != 0x80 || record[at + 9] != 0)
                ==> data_sizes(record, at) == data_sizes(record, at + length)
        }),
{
    reveal_with_fuel(data_sizes, 2);
}

} // verus!
