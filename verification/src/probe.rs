//! Looking into an NTFS volume: the arguments, and how the sizes from different
//! sources compare.

use vstd::prelude::*;

use crate::measure;
use crate::measure::parse_count;
use crate::ntfs;
use crate::ntfs::{FileRecordSizeSample, OpenByIdSizeSample};
use crate::text;
use crate::text::{owned, push_decimal, push_hex};

verus! {

/// How many differences are shown.
pub const SHOWN_DIFFERENCES: usize = 12;

/// What is looked into.
#[derive(Clone, Copy, Debug, PartialEq, Eq, Structural)]
pub enum Probe {
    /// The records of the volume, at most so many.
    Records,
    /// The sizes of so many files.
    Sizes,
}

impl Probe {
    /// The option that a number follows.
    pub open spec fn option(self) -> Seq<char> {
        match self {
            Probe::Records => "--limit"@,
            Probe::Sizes => "--count"@,
        }
    }

    fn option_text(self) -> (option: &'static str)
        ensures
            option@ == self.option(),
    {
        match self {
            Probe::Records => "--limit",
            Probe::Sizes => "--count",
        }
    }
}

/// What is wrong with an argument.
#[derive(Clone, Copy, Debug, PartialEq, Eq, Structural)]
pub enum ProbeError {
    MissingValue,
    InvalidValue,
    UnexpectedArgument,
}

impl ProbeError {
    /// What is said of the argument at fault.
    pub open spec fn wording(self, probe: Probe, arg: Seq<char>) -> Seq<char> {
        match self {
            ProbeError::MissingValue => "missing value after "@ + probe.option(),
            ProbeError::InvalidValue => "invalid "@ + probe.option() + " value: "@ + arg,
            ProbeError::UnexpectedArgument => "unexpected argument: "@ + arg,
        }
    }

    pub fn message(self, probe: Probe, arg: &str) -> (message: String)
        ensures
            message@ == self.wording(probe, arg@),
    {
        match self {
            ProbeError::MissingValue => {
                let mut message = owned("missing value after ");
                message.append(probe.option_text());
                message
            },
            ProbeError::InvalidValue => {
                let mut message = owned("invalid ");
                message.append(probe.option_text());
                message.append(" value: ");
                message.append(arg);
                message
            },
            ProbeError::UnexpectedArgument => {
                let mut message = owned("unexpected argument: ");
                message.append(arg);
                message
            },
        }
    }
}

/// What is known from the arguments so far.
pub struct ProbeArgs {
    pub probe: Probe,
    /// How many records or files; None for all.
    pub number: Option<usize>,
    pub path: Option<String>,
    pub expects_number: bool,
}

/// The same as a mathematical value.
pub struct Inquiry {
    pub probe: Probe,
    pub number: Option<nat>,
    pub path: Option<Seq<char>>,
    pub expects_number: bool,
}

impl View for ProbeArgs {
    type V = Inquiry;

    open spec fn view(&self) -> Inquiry {
        Inquiry {
            probe: self.probe,
            number: match self.number {
                Some(number) => Some(number as nat),
                None => None,
            },
            path: match self.path {
                Some(path) => Some(path@),
                None => None,
            },
            expects_number: self.expects_number,
        }
    }
}

/// What is known after an argument, or what is wrong with it.
pub open spec fn inquired(inquiry: Inquiry, arg: Seq<char>) -> Result<Inquiry, ProbeError> {
    if inquiry.expects_number {
        match measure::spelled_count(arg) {
            Some(number) => Ok(
                Inquiry { number: Some(number), expects_number: false, ..inquiry },
            ),
            None => Err(ProbeError::InvalidValue),
        }
    } else if arg == inquiry.probe.option() {
        Ok(Inquiry { expects_number: true, ..inquiry })
    } else if inquiry.probe == Probe::Records && arg == "--full"@ {
        Ok(Inquiry { number: None, ..inquiry })
    } else if inquiry.path is None {
        Ok(Inquiry { path: Some(arg), ..inquiry })
    } else {
        Err(ProbeError::UnexpectedArgument)
    }
}

impl ProbeArgs {
    /// What is looked into where nothing is said.
    pub fn new(probe: Probe) -> (args: Self)
        ensures
            args@ == (Inquiry {
                probe,
                number: Some(
                    if probe == Probe::Records {
                        50_000nat
                    } else {
                        256nat
                    },
                ),
                path: None,
                expects_number: false,
            }),
    {
        let number: usize = match probe {
            Probe::Records => 50_000,
            Probe::Sizes => 256,
        };
        ProbeArgs { probe, number: Some(number), path: None, expects_number: false }
    }

    /// Takes the next argument. One that is wrong changes nothing.
    pub fn take(&mut self, arg: &str) -> (outcome: Result<(), ProbeError>)
        ensures
            match outcome {
                Ok(_) => inquired(old(self)@, arg@) == Ok::<Inquiry, ProbeError>(final(self)@),
                Err(error) => inquired(old(self)@, arg@) == Err::<Inquiry, ProbeError>(error)
                    && final(self)@ == old(self)@,
            },
    {
        if self.expects_number {
            match parse_count(arg) {
                Some(number) => {
                    self.number = Some(number);
                    self.expects_number = false;
                    Ok(())
                },
                None => Err(ProbeError::InvalidValue),
            }
        } else if arg.eq(self.probe.option_text()) {
            self.expects_number = true;
            Ok(())
        } else if self.probe == Probe::Records && arg.eq("--full") {
            self.number = None;
            Ok(())
        } else if self.path.is_none() {
            self.path = Some(owned(arg));
            Ok(())
        } else {
            Err(ProbeError::UnexpectedArgument)
        }
    }

    /// Whether all arguments were complete.
    pub fn finish(&self) -> (outcome: Result<(), ProbeError>)
        ensures
            outcome == (if self@.expects_number {
                Err::<(), ProbeError>(ProbeError::MissingValue)
            } else {
                Ok(())
            }),
    {
        if self.expects_number {
            Err(ProbeError::MissingValue)
        } else {
            Ok(())
        }
    }
}

/// The sizes of a file from both sources, where they differ.
pub open spec fn difference(file: ntfs::Opened, sizes: FileRecordSizeSample) -> Seq<char> {
    "frn=0x"@ + text::hex(file.record.file_id as nat) + " open_by_id=("@ + text::decimal(
        file.logical_size as nat,
    ) + ","@ + text::decimal(file.allocated_size as nat) + ") file_record=("@ + text::decimal(
        sizes.logical_size as nat,
    ) + ","@ + text::decimal(sizes.allocated_size as nat) + ") "@ + file.record.name
}

/// Whether the two sources differ.
pub open spec fn differ(file: ntfs::Opened, sizes: FileRecordSizeSample) -> bool {
    sizes.logical_size != file.logical_size || sizes.allocated_size != file.allocated_size
}

/// Of the first `n` files, how many have a file record.
pub open spec fn recorded(records: Seq<Option<FileRecordSizeSample>>, n: nat) -> nat
    decreases n,
{
    if n == 0 {
        0
    } else {
        recorded(records, (n - 1) as nat) + if records[n - 1] is Some {
            1nat
        } else {
            0
        }
    }
}

/// Of the first `n` files, how many have their data in the file record.
pub open spec fn resident(records: Seq<Option<FileRecordSizeSample>>, n: nat) -> nat
    decreases n,
{
    if n == 0 {
        0
    } else {
        resident(records, (n - 1) as nat) + match records[n - 1] {
            Some(sizes) if sizes.resident_data => 1nat,
            _ => 0,
        }
    }
}

/// The differences among the first `n` files, as many as are shown.
pub open spec fn differences(
    files: Seq<ntfs::Opened>,
    records: Seq<Option<FileRecordSizeSample>>,
    n: nat,
) -> Seq<Seq<char>>
    decreases n,
{
    if n == 0 {
        Seq::empty()
    } else {
        let before = differences(files, records, (n - 1) as nat);
        match records[n - 1] {
            Some(sizes) if differ(files[n - 1], sizes) && before.len() < SHOWN_DIFFERENCES =>
                before.push(difference(files[n - 1], sizes)),
            _ => before,
        }
    }
}

/// How the sizes of files compare with those in their file records.
pub struct RecordComparison {
    pub compared: usize,
    pub resident: usize,
    pub mismatches: Vec<String>,
}

/// The texts as mathematical values.
pub open spec fn text_views(texts: Seq<String>) -> Seq<Seq<char>> {
    texts.map_values(|text: String| text@)
}

fn difference_text(file: &OpenByIdSizeSample, sizes: &FileRecordSizeSample) -> (line: String)
    ensures
        line@ == difference(file@, *sizes),
{
    let mut line = owned("frn=0x");
    push_hex(&mut line, file.sample.file_id);
    line.append(" open_by_id=(");
    push_decimal(&mut line, file.logical_size);
    line.append(",");
    push_decimal(&mut line, file.allocated_size);
    line.append(") file_record=(");
    push_decimal(&mut line, sizes.logical_size);
    line.append(",");
    push_decimal(&mut line, sizes.allocated_size);
    line.append(") ");
    line.append(file.sample.name.as_str());
    line
}

/// Compares the sizes of files with those in their file records, file by file.
pub fn compare_records(
    files: &[OpenByIdSizeSample],
    records: &[Option<FileRecordSizeSample>],
) -> (comparison: RecordComparison)
    requires
        files@.len() == records@.len(),
    ensures
        comparison.compared == recorded(records@, records@.len()),
        comparison.resident == resident(records@, records@.len()),
        text_views(comparison.mismatches@) == differences(
            ntfs::opened_views(files@),
            records@,
            records@.len(),
        ),
{
    let ghost opened = ntfs::opened_views(files@);
    let mut compared: usize = 0;
    let mut held: usize = 0;
    let mut mismatches: Vec<String> = Vec::new();
    let mut i: usize = 0;
    assert(text_views(mismatches@) =~= differences(opened, records@, 0));
    while i < records.len()
        invariant
            i <= records@.len() == files@.len(),
            opened == ntfs::opened_views(files@),
            compared == recorded(records@, i as nat),
            compared <= i,
            held == resident(records@, i as nat),
            held <= i,
            text_views(mismatches@) == differences(opened, records@, i as nat),
            mismatches@.len() <= SHOWN_DIFFERENCES,
        decreases records@.len() - i,
    {
        let ghost before = text_views(mismatches@);
        assert(before.len() == mismatches@.len());
        assert(opened[i as int] == files@[i as int]@);
        if let Some(sizes) = &records[i] {
            compared += 1;
            if sizes.resident_data {
                held += 1;
            }
            let file = &files[i];
            if (sizes.logical_size != file.logical_size || sizes.allocated_size
                != file.allocated_size) && mismatches.len() < SHOWN_DIFFERENCES {
                let line = difference_text(file, sizes);
                mismatches.push(line);
                assert(text_views(mismatches@) =~= before.push(line@));
            }
        }
        i += 1;
    }
    RecordComparison { compared, resident: held, mismatches }
}

/// What is known of the file at a path: its length, or nothing where it could not
/// be asked for.
pub struct PathLength {
    pub path: String,
    pub length: Option<u64>,
}

/// A path and the length there, as mathematical values.
pub struct Located {
    pub path: Seq<char>,
    pub length: Option<u64>,
}

impl View for PathLength {
    type V = Located;

    open spec fn view(&self) -> Located {
        Located { path: self.path@, length: self.length }
    }
}

/// The paths and lengths as mathematical values.
pub open spec fn located_views(found: Seq<Option<PathLength>>) -> Seq<Option<Located>> {
    found.map_values(
        |at: Option<PathLength>|
            match at {
                Some(at) => Some(at@),
                None => None,
            },
    )
}

/// The sizes of a file by its identity and by its path, where they differ.
pub open spec fn length_difference(file: ntfs::Opened, at: Located) -> Seq<char>
    recommends
        at.length is Some,
{
    at.path + " logical="@ + text::decimal(file.logical_size as nat) + " metadata="@
        + text::decimal(at.length->0 as nat)
}

/// Of the first `n` files, how many have a path whose length is known.
pub open spec fn measured(found: Seq<Option<Located>>, n: nat) -> nat
    decreases n,
{
    if n == 0 {
        0
    } else {
        measured(found, (n - 1) as nat) + match found[n - 1] {
            Some(at) if at.length is Some => 1nat,
            _ => 0,
        }
    }
}

/// Of the first `n` files, how many have a path whose length is not known.
pub open spec fn unmeasured(found: Seq<Option<Located>>, n: nat) -> nat
    decreases n,
{
    if n == 0 {
        0
    } else {
        unmeasured(found, (n - 1) as nat) + match found[n - 1] {
            Some(at) if at.length is None => 1nat,
            _ => 0,
        }
    }
}

/// The differences in length among the first `n` files, as many as are shown.
pub open spec fn length_differences(
    files: Seq<ntfs::Opened>,
    found: Seq<Option<Located>>,
    n: nat,
) -> Seq<Seq<char>>
    decreases n,
{
    if n == 0 {
        Seq::empty()
    } else {
        let before = length_differences(files, found, (n - 1) as nat);
        match found[n - 1] {
            Some(at) if at.length is Some && at.length->0 != files[n - 1].logical_size
                && before.len() < SHOWN_DIFFERENCES => before.push(
                length_difference(files[n - 1], at),
            ),
            _ => before,
        }
    }
}

/// How the sizes of files compare with the lengths at their paths.
pub struct MetadataComparison {
    pub compared: usize,
    pub errors: usize,
    pub mismatches: Vec<String>,
}

/// Compares the sizes of files with the lengths at their paths, file by file.
/// Files without a path are passed over.
pub fn compare_metadata(files: &[OpenByIdSizeSample], found: &[Option<PathLength>]) -> (comparison:
    MetadataComparison)
    requires
        files@.len() == found@.len(),
    ensures
        comparison.compared == measured(located_views(found@), found@.len()),
        comparison.errors == unmeasured(located_views(found@), found@.len()),
        text_views(comparison.mismatches@) == length_differences(
            ntfs::opened_views(files@),
            located_views(found@),
            found@.len(),
        ),
{
    let ghost opened = ntfs::opened_views(files@);
    let ghost located = located_views(found@);
    let mut compared: usize = 0;
    let mut errors: usize = 0;
    let mut mismatches: Vec<String> = Vec::new();
    let mut i: usize = 0;
    assert(text_views(mismatches@) =~= length_differences(opened, located, 0));
    while i < found.len()
        invariant
            i <= found@.len() == files@.len(),
            opened == ntfs::opened_views(files@),
            located == located_views(found@),
            compared == measured(located, i as nat),
            compared <= i,
            errors == unmeasured(located, i as nat),
            errors <= i,
            text_views(mismatches@) == length_differences(opened, located, i as nat),
            mismatches@.len() <= SHOWN_DIFFERENCES,
        decreases found@.len() - i,
    {
        let ghost before = text_views(mismatches@);
        assert(before.len() == mismatches@.len());
        assert(opened[i as int] == files@[i as int]@);
        if let Some(at) = &found[i] {
            assert(located[i as int] == Some(at@));
            if let Some(length) = at.length {
                compared += 1;
                if length != files[i].logical_size && mismatches.len() < SHOWN_DIFFERENCES {
                    let mut line = owned(at.path.as_str());
                    line.append(" logical=");
                    push_decimal(&mut line, files[i].logical_size);
                    line.append(" metadata=");
                    push_decimal(&mut line, length);
                    mismatches.push(line);
                    assert(text_views(mismatches@) =~= before.push(line@));
                }
            } else {
                errors += 1;
            }
        }
        i += 1;
    }
    MetadataComparison { compared, errors, mismatches }
}

/// As many files are compared as have a record; of a path it is either known how long the
/// file is, or counted that it is not.
pub proof fn lemma_counts(
    records: Seq<Option<FileRecordSizeSample>>,
    found: Seq<Option<Located>>,
    n: nat,
)
    requires
        n <= records.len(),
        n <= found.len(),
    ensures
        resident(records, n) <= recorded(records, n) <= n,
        recorded(records, n) == records.take(n as int).filter(
            |r: Option<FileRecordSizeSample>| r is Some,
        ).len(),
        measured(found, n) + unmeasured(found, n) == found.take(n as int).filter(
            |at: Option<Located>| at is Some,
        ).len(),
    decreases n,
{
    reveal(Seq::filter);
    if n > 0 {
        let less = (n - 1) as nat;
        lemma_counts(records, found, less);
        assert(records.take(n as int).drop_last() =~= records.take(less as int));
        assert(found.take(n as int).drop_last() =~= found.take(less as int));
    } else {
        assert(records.take(0) =~= Seq::empty());
        assert(found.take(0) =~= Seq::empty());
    }
}

/// Nothing is reported exactly where both sources agree on every file that both know;
/// never more is reported than is shown.
pub proof fn lemma_differences(
    files: Seq<ntfs::Opened>,
    records: Seq<Option<FileRecordSizeSample>>,
    n: nat,
)
    requires
        n <= records.len(),
        n <= files.len(),
    ensures
        differences(files, records, n).len() <= 12,
        differences(files, records, n).len() == 0 <==> forall|i: int|
            0 <= i < n && (#[trigger] records[i]) is Some ==> records[i]->0.logical_size
                == files[i].logical_size && records[i]->0.allocated_size
                == files[i].allocated_size,
    decreases n,
{
    if n > 0 {
        lemma_differences(files, records, (n - 1) as nat);
    }
}

/// The same holds of the lengths at paths.
pub proof fn lemma_length_differences(
    files: Seq<ntfs::Opened>,
    found: Seq<Option<Located>>,
    n: nat,
)
    requires
        n <= found.len(),
        n <= files.len(),
    ensures
        length_differences(files, found, n).len() <= 12,
        length_differences(files, found, n).len() == 0 <==> forall|i: int|
            0 <= i < n && (#[trigger] found[i]) is Some && found[i]->0.length is Some
                ==> found[i]->0.length->0 == files[i].logical_size,
    decreases n,
{
    if n > 0 {
        lemma_length_differences(files, found, (n - 1) as nat);
        assert(found[n - 1] == found[n - 1]);
    }
}

/// A number follows its option, and no other argument is read as one; one path is taken,
/// and the next is refused.
pub proof fn lemma_inquired(inquiry: Inquiry, n: nat, path: Seq<char>)
    requires
        n <= usize::MAX,
        path.len() > 0,
        path[0] != '-',
    ensures
        inquiry.expects_number ==> inquired(inquiry, text::decimal(n)) == Ok::<
            Inquiry,
            ProbeError,
        >(Inquiry { number: Some(n), expects_number: false, ..inquiry }),
        !inquiry.expects_number && inquiry.path is None ==> inquired(inquiry, path) == Ok::<
            Inquiry,
            ProbeError,
        >(Inquiry { path: Some(path), ..inquiry }),
        !inquiry.expects_number && inquiry.path is Some ==> inquired(inquiry, path) == Err::<
            Inquiry,
            ProbeError,
        >(ProbeError::UnexpectedArgument),
{
    measure::lemma_count_reads(n);
    reveal_strlit("--limit");
    reveal_strlit("--count");
    reveal_strlit("--full");
    assert("--limit"@[0] == '-' && "--count"@[0] == '-' && "--full"@[0] == '-');
}

} // verus!
